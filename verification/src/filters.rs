//! The filters of streams, undone.
use std::io::Read;
use vstd::arithmetic::power2::{lemma_pow2_unfold, pow2};
use vstd::prelude::*;
use vstd::slice::slice_subrange;
use crate::error::{DecodeProblem, ErrorModel, PdfError};
use crate::jpeg::{jpeg_decode, jpeg_decoded};
use crate::lexer::{digit_pairs, hex_digit, hex_val, pair_digits};
use crate::object::{clone_bytes, entry, DictModel, Dictionary, Object, ObjectModel, Stream};
use crate::text::same_text;

verus! {

/// What `flate2::read::ZlibDecoder` makes of a zlib stream; `None` where it reports an error.
pub uninterp spec fn inflated(data: Seq<u8>) -> Option<Seq<u8>>;

/// Reads a `flate2::read::ZlibDecoder` over `data` to its end. Claims that the outcome depends on
/// the data alone; how zlib data are decoded is not said.
#[verifier::external_body]
fn zlib_decode(data: &[u8]) -> (r: Option<Vec<u8>>)
    ensures
        match r {
            Some(out) => inflated(data@) == Some(out@),
            None => inflated(data@) is None,
        },
{
    let mut out = Vec::new();
    match flate2::read::ZlibDecoder::new(data).read_to_end(&mut out) {
        Ok(_) => Some(out),
        Err(_) => None,
    }
}

/// The decoded bytes, or a fault.
pub type Decoded = Result<Seq<u8>, ErrorModel>;

/// `r` is what was decoded.
pub open spec fn returns_decoded(r: Result<Vec<u8>, PdfError>, d: Decoded) -> bool {
    match d {
        Ok(bytes) => r is Ok && r->Ok_0@ == bytes,
        Err(e) => r is Err && r->Err_0@ == e,
    }
}

pub open spec fn fault(problem: DecodeProblem) -> Decoded {
    Err(ErrorModel::DecodeError(problem))
}

pub open spec fn flate_decoded(data: Seq<u8>) -> Decoded {
    match inflated(data) {
        Some(out) => Ok(out),
        None => fault(DecodeProblem::Flate),
    }
}

pub fn flate_decode(data: &[u8]) -> (r: Result<Vec<u8>, PdfError>)
    ensures
        returns_decoded(r, flate_decoded(data@)),
{
    match zlib_decode(data) {
        Some(out) => Ok(out),
        None => Err(PdfError::DecodeError(DecodeProblem::Flate)),
    }
}

/// Tab, line feed, form feed, carriage return and space.
pub open spec fn ascii_space(b: u8) -> bool {
    b == 9 || b == 10 || b == 12 || b == 13 || b == 32
}

pub fn is_ascii_space(b: u8) -> (r: bool)
    ensures
        r == ascii_space(b),
{
    b == 9 || b == 10 || b == 12 || b == 13 || b == 32
}

/// The bytes that hexadecimal digits from `p` on write, behind the digits in `acc`. They end at
/// `>` or with the data.
pub open spec fn ascii_hex_from(d: Seq<u8>, p: int, acc: Seq<u8>) -> Decoded
    decreases d.len() - p,
{
    if !(0 <= p < d.len()) || d[p] == 62 {
        Ok(digit_pairs(acc))
    } else if ascii_space(d[p]) {
        ascii_hex_from(d, p + 1, acc)
    } else {
        match hex_digit(d[p]) {
            Some(v) => ascii_hex_from(d, p + 1, acc.push(v)),
            None => fault(DecodeProblem::AsciiHex),
        }
    }
}

pub fn ascii_hex_decode(data: &[u8]) -> (r: Result<Vec<u8>, PdfError>)
    ensures
        returns_decoded(r, ascii_hex_from(data@, 0, seq![])),
{
    let mut digits: Vec<u8> = Vec::new();
    assert(digits@ =~= seq![]);
    let mut i: usize = 0;
    while i < data.len() && data[i] != 62
        invariant
            0 <= i <= data@.len(),
            forall|j: int| 0 <= j < digits@.len() ==> #[trigger] digits@[j] < 16,
            ascii_hex_from(data@, 0, seq![]) == ascii_hex_from(data@, i as int, digits@),
        decreases data@.len() - i,
    {
        if !is_ascii_space(data[i]) {
            match hex_val(data[i]) {
                Some(v) => {
                    digits.push(v);
                },
                None => {
                    return Err(PdfError::DecodeError(DecodeProblem::AsciiHex));
                },
            }
        }
        i += 1;
    }
    Ok(pair_digits(digits))
}

/// The number that digits to the base 85 write.
pub open spec fn value85(group: Seq<u8>) -> nat
    decreases group.len(),
{
    if group.len() == 0 {
        0
    } else {
        value85(group.drop_last()) * 85 + group.last() as nat
    }
}

/// The low 32 bits of a number as four bytes, the highest first.
#[verifier::opaque]
pub open spec fn be_bytes(n: nat) -> Seq<u8> {
    let v = n % 0x1_0000_0000;
    seq![
        (v / 0x100_0000) as u8,
        (v / 0x1_0000 % 256) as u8,
        (v / 256 % 256) as u8,
        (v % 256) as u8,
    ]
}

pub proof fn be_bytes_len(n: nat)
    ensures
        be_bytes(n).len() == 4,
{
    reveal(be_bytes);
}

/// A group of fewer than five digits, filled up with the highest digit, stands for one byte less
/// than it has digits.
pub open spec fn short_group85(group: Seq<u8>) -> Seq<u8> {
    let full = group + Seq::new((5 - group.len()) as nat, |i: int| 84u8);
    be_bytes(value85(full)).take(group.len() - 1)
}

/// The bytes that digits to the base 85 from `p` on write, behind the digits in `group` and the
/// bytes in `acc`. They end at `~` or with the data; `z` between groups stands for four zeros.
pub open spec fn ascii85_from(d: Seq<u8>, p: int, group: Seq<u8>, acc: Seq<u8>) -> Decoded
    decreases d.len() - p,
{
    if !(0 <= p < d.len()) || d[p] == 126 {
        if group.len() > 0 {
            Ok(acc + short_group85(group))
        } else {
            Ok(acc)
        }
    } else if ascii_space(d[p]) {
        ascii85_from(d, p + 1, group, acc)
    } else if d[p] == 122 && group.len() == 0 {
        ascii85_from(d, p + 1, group, acc + seq![0u8, 0, 0, 0])
    } else if d[p] < 33 {
        fault(DecodeProblem::Ascii85)
    } else {
        let next = group.push((d[p] - 33) as u8);
        if next.len() == 5 {
            ascii85_from(d, p + 1, seq![], acc + be_bytes(value85(next)))
        } else {
            ascii85_from(d, p + 1, next, acc)
        }
    }
}

/// The bytes that digits to the base 85 write; they may start with `<~`.
pub open spec fn ascii85_decoded(d: Seq<u8>) -> Decoded {
    let start: int = if d.len() >= 2 && d[0] == 60 && d[1] == 126 {
        2
    } else {
        0
    };
    ascii85_from(d, start, seq![], seq![])
}

proof fn value85_bound(group: Seq<u8>)
    requires
        group.len() <= 5,
    ensures
        value85(group) <= 0xffff_ffff_ffff,
        group.len() <= 4 ==> value85(group) <= 0xff_ffff_ffff,
        group.len() <= 3 ==> value85(group) <= 0xffff_ffff,
        group.len() <= 2 ==> value85(group) <= 0xff_ffff,
        group.len() <= 1 ==> value85(group) <= 0xffff,
    decreases group.len(),
{
    if group.len() > 0 {
        value85_bound(group.drop_last());
    }
}

/// The first `out_len` of the four bytes that five digits to the base 85 write.
pub fn decode_group85(group: &[u8; 5], out_len: usize) -> (r: Vec<u8>)
    requires
        out_len <= 4,
    ensures
        r@ == be_bytes(value85(group@)).take(out_len as int),
{
    let mut value: u64 = 0;
    let mut i: usize = 0;
    while i < 5
        invariant
            0 <= i <= 5,
            value == value85(group@.take(i as int)),
        decreases 5 - i,
    {
        proof {
            value85_bound(group@.take(i as int));
            assert(group@.take(i + 1).drop_last() =~= group@.take(i as int));
        }
        value = value * 85 + group[i] as u64;
        i += 1;
    }
    assert(group@.take(5) =~= group@);
    proof {
        reveal(be_bytes);
    }
    let v: u64 = value % 0x1_0000_0000;
    let bytes: [u8; 4] = [
        (v / 0x100_0000) as u8,
        (v / 0x1_0000 % 256) as u8,
        (v / 256 % 256) as u8,
        (v % 256) as u8,
    ];
    assert(bytes@ =~= be_bytes(value85(group@)));
    let mut r: Vec<u8> = Vec::new();
    r.extend_from_slice(slice_subrange(bytes.as_slice(), 0, out_len));
    assert(r@ =~= be_bytes(value85(group@)).take(out_len as int));
    r
}

pub fn ascii85_decode(data: &[u8]) -> (r: Result<Vec<u8>, PdfError>)
    ensures
        returns_decoded(r, ascii85_decoded(data@)),
{
    let mut out: Vec<u8> = Vec::new();
    let mut group: [u8; 5] = [0, 0, 0, 0, 0];
    let mut count: usize = 0;
    let mut i: usize = 0;
    if data.len() >= 2 && data[0] == 60 && data[1] == 126 {
        i = 2;
    }
    assert(group@.take(0) =~= seq![]);
    assert(out@ =~= seq![]);
    while i < data.len() && data[i] != 126
        invariant
            0 <= i <= data@.len(),
            0 <= count < 5,
            ascii85_decoded(data@) == ascii85_from(
                data@,
                i as int,
                group@.take(count as int),
                out@,
            ),
        decreases data@.len() - i,
    {
        let b: u8 = data[i];
        let ghost before_out = out@;
        if is_ascii_space(b) {
        } else if b == 122 && count == 0 {
            let zeros: [u8; 4] = [0, 0, 0, 0];
            out.extend_from_slice(zeros.as_slice());
            assert(out@ =~= before_out + seq![0u8, 0, 0, 0]);
        } else if b < 33 {
            return Err(PdfError::DecodeError(DecodeProblem::Ascii85));
        } else {
            let ghost before = group@.take(count as int);
            group[count] = b - 33;
            count += 1;
            assert(group@.take(count as int) =~= before.push((b - 33) as u8));
            if count == 5 {
                assert(group@.take(5) =~= group@);
                let decoded = decode_group85(&group, 4);
                out.extend_from_slice(decoded.as_slice());
                proof {
                    be_bytes_len(value85(group@));
                    assert(out@ =~= before_out + be_bytes(value85(group@)));
                }
                count = 0;
                assert(group@.take(0) =~= seq![]);
            }
        }
        i += 1;
    }
    if count > 0 {
        let ghost given = group@.take(count as int);
        let mut k: usize = count;
        while k < 5
            invariant
                0 < count <= k <= 5,
                group@.take(count as int) == given,
                forall|j: int| count <= j < k ==> group@[j] == 84,
            decreases 5 - k,
        {
            group[k] = 84;
            k += 1;
            assert(group@.take(count as int) =~= given);
        }
        assert(group@ =~= given + Seq::new((5 - count) as nat, |i: int| 84u8));
        let decoded = decode_group85(&group, count - 1);
        let ghost before = out@;
        out.extend_from_slice(decoded.as_slice());
        assert(out@ =~= before + short_group85(given));
    }
    Ok(out)
}

/// The bit `i` of the data, the highest of each byte first.
pub open spec fn bit_at(d: Seq<u8>, i: int) -> u8 {
    (d[i / 8] >> ((7 - i % 8) as u8)) & 1
}

/// The number that `n` bits from `at` on write.
pub open spec fn bits_value(d: Seq<u8>, at: int, n: nat) -> nat
    decreases n,
{
    if n == 0 {
        0
    } else {
        bits_value(d, at, (n - 1) as nat) * 2 + bit_at(d, at + n - 1) as nat
    }
}

proof fn bits_value_bound(d: Seq<u8>, at: int, n: nat)
    ensures
        bits_value(d, at, n) < pow2(n),
    decreases n,
{
    if n == 0 {
        vstd::arithmetic::power2::lemma2_to64();
    } else {
        bits_value_bound(d, at, (n - 1) as nat);
        lemma_pow2_unfold(n);
        let i = at + n - 1;
        let x = d[i / 8] >> ((7 - i % 8) as u8);
        assert(x & 1 <= 1) by (bit_vector);
    }
}

/// Reads `width` bits from `bit_pos` on.
pub fn read_bits(data: &[u8], bit_pos: u128, width: u32) -> (r: u16)
    requires
        width <= 16,
        bit_pos + width <= 8 * data@.len(),
    ensures
        r == bits_value(data@, bit_pos as int, width as nat),
        r < pow2(width as nat),
{
    let len: usize = data.len();
    let mut value: u32 = 0;
    let mut i: u32 = 0;
    proof {
        vstd::arithmetic::power2::lemma2_to64();
    }
    while i < width
        invariant
            0 <= i <= width <= 16,
            bit_pos + width <= 8 * data@.len(),
            data@.len() == len,
            value == bits_value(data@, bit_pos as int, i as nat),
            value < pow2(i as nat),
        decreases width - i,
    {
        let at: u128 = bit_pos + i as u128;
        assert(at / 8 < data@.len());
        let byte: u8 = data[(at / 8) as usize];
        let shift: u8 = (7 - at % 8) as u8;
        assert(shift <= 7);
        let bit: u8 = (byte >> shift) & 1;
        proof {
            assert((byte >> shift) & 1 <= 1) by (bit_vector);
            lemma_pow2_unfold((i + 1) as nat);
            vstd::arithmetic::power2::lemma2_to64();
            vstd::arithmetic::power2::lemma_pow2_strictly_increases(i as nat, 16);
        }
        value = value * 2 + bit as u32;
        i += 1;
    }
    proof {
        vstd::arithmetic::power2::lemma2_to64();
        if width < 16 {
            vstd::arithmetic::power2::lemma_pow2_strictly_increases(width as nat, 16);
        }
    }
    value as u16
}

/// The table before any code was read: each byte for itself. The codes 256, which starts the
/// table anew, and 257, which ends the data, stand for no bytes.
pub open spec fn first_table() -> Seq<Seq<u8>> {
    Seq::new(
        258,
        |i: int|
            if i < 256 {
                seq![i as u8]
            } else {
                seq![]
            },
    )
}

/// The width of the codes once the table has `len` entries: it grows one code before the table
/// is full.
pub open spec fn code_width(len: nat, width: nat) -> nat {
    if len == 511 {
        10
    } else if len == 1023 {
        11
    } else if len == 2047 {
        12
    } else {
        width
    }
}

/// What a code stands for: an entry, or the next one to come, which is the last with its first
/// byte again.
pub open spec fn lzw_entry(table: Seq<Seq<u8>>, prev: Option<int>, code: int) -> Option<Seq<u8>> {
    if code < table.len() {
        Some(table[code])
    } else if code == table.len() && prev is Some {
        Some(table[prev->Some_0].push(table[prev->Some_0][0]))
    } else {
        None
    }
}

/// The bytes that the codes from the bit `at` on stand for, behind those in `acc`.
pub open spec fn lzw_from(
    d: Seq<u8>,
    at: int,
    table: Seq<Seq<u8>>,
    width: nat,
    prev: Option<int>,
    acc: Seq<u8>,
) -> Decoded
    decreases 8 * d.len() - at,
{
    if width == 0 || at + width > 8 * d.len() {
        Ok(acc)
    } else {
        let code = bits_value(d, at, width) as int;
        if code == 256 {
            lzw_from(d, at + width, first_table(), 9, None, acc)
        } else if code == 257 {
            Ok(acc)
        } else {
            match lzw_entry(table, prev, code) {
                None => fault(DecodeProblem::Lzw),
                Some(e) => match prev {
                    None => lzw_from(d, at + width, table, width, Some(code), acc + e),
                    Some(p) => lzw_from(
                        d,
                        at + width,
                        table.push(table[p].push(e[0])),
                        code_width(table.len() + 1, width),
                        Some(code),
                        acc + e,
                    ),
                },
            }
        }
    }
}

pub open spec fn lzw_decoded(d: Seq<u8>) -> Decoded {
    lzw_from(d, 0, first_table(), 9, None, seq![])
}

/// The entries of a table as bytes.
spec fn table_model(t: Seq<Vec<u8>>) -> Seq<Seq<u8>> {
    t.map_values(|v: Vec<u8>| v@)
}

fn fresh_table() -> (r: Vec<Vec<u8>>)
    ensures
        table_model(r@) == first_table(),
        r@.len() == 258,
        forall|i: int| 0 <= i < 256 ==> (#[trigger] r@[i])@.len() > 0,
{
    let mut r: Vec<Vec<u8>> = Vec::new();
    let mut i: usize = 0;
    while i < 258
        invariant
            0 <= i <= 258,
            r@.len() == i,
            forall|j: int| 0 <= j < i ==> #[trigger] r@[j]@ == first_table()[j],
        decreases 258 - i,
    {
        let mut entry: Vec<u8> = Vec::new();
        if i < 256 {
            entry.push(i as u8);
        }
        assert(entry@ =~= first_table()[i as int]);
        r.push(entry);
        i += 1;
    }
    assert(table_model(r@) =~= first_table());
    r
}

/// Undoes LZW compression: codes of 9 to 12 bits, wider one code early, 256 to start the table
/// anew and 257 at the end.
pub fn lzw_decode(data: &[u8]) -> (r: Result<Vec<u8>, PdfError>)
    ensures
        returns_decoded(r, lzw_decoded(data@)),
{
    let mut out: Vec<u8> = Vec::new();
    let mut table: Vec<Vec<u8>> = fresh_table();
    let mut width: u32 = 9;
    let mut prev: Option<usize> = None;
    let mut at: u128 = 0;
    let total: u128 = data.len() as u128 * 8;
    assert(out@ =~= seq![]);
    while at + width as u128 <= total
        invariant
            total == 8 * data@.len(),
            data@.len() <= usize::MAX,
            at <= total,
            9 <= width <= 12,
            table@.len() >= 258,
            forall|i: int|
                0 <= i < table@.len() && i != 256 && i != 257 ==> (#[trigger] table@[i])@.len() > 0,
            prev is Some ==> prev->Some_0 < table@.len() && prev->Some_0 != 256 && prev->Some_0
                != 257,
            lzw_decoded(data@) == lzw_from(
                data@,
                at as int,
                table_model(table@),
                width as nat,
                match prev {
                    Some(p) => Some(p as int),
                    None => None,
                },
                out@,
            ),
        decreases total - at,
    {
        let ghost tm = table_model(table@);
        let ghost before = out@;
        let code: usize = read_bits(data, at, width) as usize;
        at = at + width as u128;
        if code == 256 {
            table = fresh_table();
            width = 9;
            prev = None;
        } else if code == 257 {
            return Ok(out);
        } else {
            let entry: Vec<u8> = if code < table.len() {
                assert(tm[code as int] == table@[code as int]@);
                clone_bytes(table[code].as_slice())
            } else {
                match prev {
                    Some(p) => {
                        if code != table.len() {
                            return Err(PdfError::DecodeError(DecodeProblem::Lzw));
                        }
                        assert(tm[p as int] == table@[p as int]@);
                        let mut e = clone_bytes(table[p].as_slice());
                        e.push(table[p][0]);
                        e
                    },
                    None => {
                        return Err(PdfError::DecodeError(DecodeProblem::Lzw));
                    },
                }
            };
            out.extend_from_slice(entry.as_slice());
            assert(out@ =~= before + entry@);
            match prev {
                Some(p) => {
                    assert(tm[p as int] == table@[p as int]@);
                    let mut new_entry = clone_bytes(table[p].as_slice());
                    new_entry.push(entry[0]);
                    table.push(new_entry);
                    assert(table_model(table@) =~= tm.push(tm[p as int].push(entry@[0])));
                    if table.len() == 511 {
                        width = 10;
                    } else if table.len() == 1023 {
                        width = 11;
                    } else if table.len() == 2047 {
                        width = 12;
                    }
                },
                None => {},
            }
            prev = Some(code);
        }
    }
    Ok(out)
}

/// The sum of two bytes, wrapped.
pub open spec fn wrapped(a: int, b: int) -> u8 {
    ((a + b) % 256) as u8
}

fn wrap_sum(a: u8, b: u8) -> (r: u8)
    ensures
        r == wrapped(a as int, b as int),
{
    ((a as u16 + b as u16) % 256) as u8
}

/// The first `n` bytes with the TIFF predictor undone: in each row every byte but the first
/// pixel's was stored as the difference to the byte one pixel before. A pixel of no bytes has each
/// byte stand before itself.
pub open spec fn tiff_prefix(d: Seq<u8>, row: int, pixel: int, n: nat) -> Seq<u8>
    decreases n,
{
    if n == 0 {
        seq![]
    } else {
        let done = tiff_prefix(d, row, pixel, (n - 1) as nat);
        let i = n - 1;
        done.push(
            if i % row >= pixel {
                wrapped(d[i] as int, done.push(d[i])[i - pixel] as int)
            } else {
                d[i]
            },
        )
    }
}

pub open spec fn tiff_decoded(d: Seq<u8>, row: int, pixel: int) -> Seq<u8> {
    tiff_prefix(d, row, pixel, d.len())
}

pub proof fn tiff_prefix_len(d: Seq<u8>, row: int, pixel: int, n: nat)
    ensures
        tiff_prefix(d, row, pixel, n).len() == n,
    decreases n,
{
    if n > 0 {
        tiff_prefix_len(d, row, pixel, (n - 1) as nat);
    }
}

pub fn tiff_predictor(data: &[u8], row_bytes: usize, bytes_per_pixel: usize) -> (r: Vec<u8>)
    requires
        row_bytes > 0,
    ensures
        r@ == tiff_decoded(data@, row_bytes as int, bytes_per_pixel as int),
{
    let mut out: Vec<u8> = Vec::new();
    let mut i: usize = 0;
    assert(out@ =~= seq![]);
    while i < data.len()
        invariant
            row_bytes > 0,
                0 <= i <= data@.len(),
            out@.len() == i,
            out@ == tiff_prefix(data@, row_bytes as int, bytes_per_pixel as int, i as nat),
        decreases data@.len() - i,
    {
        if i % row_bytes >= bytes_per_pixel {
            assert(i % row_bytes <= i) by (nonlinear_arith)
                requires
                    row_bytes > 0,
                    i >= 0,
            ;
            let left: u8 = if bytes_per_pixel == 0 {
                data[i]
            } else {
                out[i - bytes_per_pixel]
            };
            out.push(wrap_sum(data[i], left));
        } else {
            out.push(data[i]);
        }
        i += 1;
    }
    out
}

pub open spec fn distance(a: int, b: int) -> int {
    if a >= b {
        a - b
    } else {
        b - a
    }
}

/// Of the byte to the left, the one above and the one above to the left, the one nearest to
/// `a + b - c`.
pub open spec fn paeth_of(a: u8, b: u8, c: u8) -> u8 {
    let p = a + b - c;
    if distance(p, a as int) <= distance(p, b as int) && distance(p, a as int) <= distance(
        p,
        c as int,
    ) {
        a
    } else if distance(p, b as int) <= distance(p, c as int) {
        b
    } else {
        c
    }
}

fn gap(a: i32, b: i32) -> (r: i32)
    requires
        -1000 <= a <= 1000,
        -1000 <= b <= 1000,
    ensures
        r == distance(a as int, b as int),
{
    if a >= b {
        a - b
    } else {
        b - a
    }
}

pub fn paeth(a: u8, b: u8, c: u8) -> (r: u8)
    ensures
        r == paeth_of(a, b, c),
{
    let p: i32 = a as i32 + b as i32 - c as i32;
    let pa: i32 = gap(p, a as i32);
    let pb: i32 = gap(p, b as i32);
    let pc: i32 = gap(p, c as i32);
    if pa <= pb && pa <= pc {
        a
    } else if pb <= pc {
        b
    } else {
        c
    }
}

/// What a PNG filter predicts from the bytes to the left, above, and above to the left.
pub open spec fn png_predicted(filter: u8, a: u8, b: u8, c: u8) -> int {
    if filter == 0 {
        0
    } else if filter == 1 {
        a as int
    } else if filter == 2 {
        b as int
    } else if filter == 3 {
        (a as int + b as int) / 2
    } else {
        paeth_of(a, b, c) as int
    }
}

/// The first `n` bytes of a row with its PNG filter undone. A pixel of no bytes has each byte
/// stand to its own left.
pub open spec fn png_prefix(filter: u8, raw: Seq<u8>, above: Seq<u8>, pixel: int, n: nat) -> Seq<u8>
    decreases n,
{
    if n == 0 {
        seq![]
    } else {
        let done = png_prefix(filter, raw, above, pixel, (n - 1) as nat);
        let i = n - 1;
        let a = if i >= pixel {
            done.push(raw[i])[i - pixel]
        } else {
            0
        };
        let c = if i >= pixel {
            above[i - pixel]
        } else {
            0
        };
        done.push(wrapped(raw[i] as int, png_predicted(filter, a, above[i], c)))
    }
}

/// The rows from `p` on with their PNG filters undone, behind those in `acc`. Each starts with
/// the number of its filter.
pub open spec fn png_rows(
    d: Seq<u8>,
    p: int,
    row: int,
    pixel: int,
    above: Seq<u8>,
    acc: Seq<u8>,
) -> Decoded
    decreases d.len() - p,
{
    if p < 0 || row < 0 || p + 1 + row > d.len() {
        Ok(acc)
    } else if row > 0 && d[p] > 4 {
        fault(DecodeProblem::Predictor)
    } else {
        let line = png_prefix(d[p], d.subrange(p + 1, p + 1 + row), above, pixel, row as nat);
        png_rows(d, p + 1 + row, row, pixel, line, acc + line)
    }
}

/// The data with the PNG predictor undone.
pub open spec fn png_decoded(d: Seq<u8>, row: int, pixel: int) -> Decoded {
    if d.len() % ((row + 1) as nat) != 0 {
        fault(DecodeProblem::Predictor)
    } else {
        png_rows(d, 0, row, pixel, Seq::new(row as nat, |i: int| 0u8), seq![])
    }
}

/// Undoes the PNG filter of one row.
fn png_row(filter: u8, raw: &[u8], above: &[u8], bytes_per_pixel: usize) -> (r: Vec<u8>)
    requires
        filter <= 4,
        raw@.len() == above@.len(),
    ensures
        r@ == png_prefix(filter, raw@, above@, bytes_per_pixel as int, raw@.len()),
        r@.len() == raw@.len(),
{
    let mut row: Vec<u8> = Vec::new();
    let mut i: usize = 0;
    assert(row@ =~= seq![]);
    while i < raw.len()
        invariant
                filter <= 4,
            raw@.len() == above@.len(),
            0 <= i <= raw@.len(),
            row@.len() == i,
            row@ == png_prefix(filter, raw@, above@, bytes_per_pixel as int, i as nat),
        decreases raw@.len() - i,
    {
        let a: u8 = if bytes_per_pixel == 0 {
            raw[i]
        } else if i >= bytes_per_pixel {
            row[i - bytes_per_pixel]
        } else {
            0
        };
        let b: u8 = above[i];
        let c: u8 = if i >= bytes_per_pixel {
            above[i - bytes_per_pixel]
        } else {
            0
        };
        let predicted: u8 = if filter == 0 {
            0
        } else if filter == 1 {
            a
        } else if filter == 2 {
            b
        } else if filter == 3 {
            ((a as u16 + b as u16) / 2) as u8
        } else {
            paeth(a, b, c)
        };
        row.push(wrap_sum(raw[i], predicted));
        i += 1;
    }
    row
}

/// Undoes the PNG predictor.
pub fn png_predictor(data: &[u8], row_bytes: usize, bytes_per_pixel: usize) -> (r: Result<
    Vec<u8>,
    PdfError,
>)
    requires
        row_bytes < usize::MAX,
    ensures
        returns_decoded(r, png_decoded(data@, row_bytes as int, bytes_per_pixel as int)),
{
    let stride: usize = row_bytes + 1;
    if data.len() % stride != 0 {
        return Err(PdfError::DecodeError(DecodeProblem::Predictor));
    }
    let mut out: Vec<u8> = Vec::new();
    assert(out@ =~= seq![]);
    if data.len() == 0 {
        return Ok(out);
    }
    let mut above: Vec<u8> = Vec::new();
    let mut k: usize = 0;
    while k < row_bytes
        invariant
            0 <= k <= row_bytes,
            above@.len() == k,
            forall|j: int| 0 <= j < k ==> #[trigger] above@[j] == 0,
        decreases row_bytes - k,
    {
        above.push(0);
        k += 1;
    }
    assert(above@ =~= Seq::new(row_bytes as nat, |i: int| 0u8));
    let mut p: usize = 0;
    let ghost goal = png_decoded(data@, row_bytes as int, bytes_per_pixel as int);
    let ghost mut rows: int = data@.len() as int / stride as int;
    proof {
        vstd::arithmetic::div_mod::lemma_fundamental_div_mod(data@.len() as int, stride as int);
    }
    while p < data.len()
        invariant
            stride == row_bytes + 1,
                0 <= p <= data@.len(),
            above@.len() == row_bytes,
            data@.len() - p == rows * stride,
            rows >= 0,
            goal == png_decoded(data@, row_bytes as int, bytes_per_pixel as int),
            goal == png_rows(
                data@,
                p as int,
                row_bytes as int,
                bytes_per_pixel as int,
                above@,
                out@,
            ),
        decreases data@.len() - p,
    {
        proof {
            assert(rows >= 1 && (rows - 1) * stride == rows * stride - stride) by (nonlinear_arith)
                requires
                    rows * stride > 0,
                    stride > 0,
                    rows >= 0,
            ;
            assert(rows * stride >= stride) by (nonlinear_arith)
                requires
                    rows >= 1,
                    stride > 0,
            ;
        }
        let filter: u8 = data[p];
        if row_bytes > 0 && filter > 4 {
            return Err(PdfError::DecodeError(DecodeProblem::Predictor));
        }
        let raw = slice_subrange(data, p + 1, p + stride);
        let line = if row_bytes > 0 {
            png_row(filter, raw, above.as_slice(), bytes_per_pixel)
        } else {
            Vec::new()
        };
        let ghost before = out@;
        out.extend_from_slice(line.as_slice());
        proof {
            assert(out@ =~= before + line@);
            assert(line@ =~= png_prefix(
                filter,
                data@.subrange(p + 1, p + 1 + row_bytes),
                above@,
                bytes_per_pixel as int,
                row_bytes as nat,
            ));
            rows = rows - 1;
        }
        above = line;
        p = p + stride;
    }
    Ok(out)
}

/// The whole number under a name, or `default` where there is none.
pub open spec fn int_entry(d: DictModel, key: Seq<char>, default: i64) -> i64 {
    match entry(d, key) {
        Some(o) => match o.integer() {
            Some(n) => n,
            None => default,
        },
        None => default,
    }
}

/// The whole number under a name, or `default` where there is none.
pub fn get_int_or(d: &Dictionary, key: &str, default: i64) -> (r: i64)
    ensures
        r == int_entry(d@, key@, default),
{
    match d.get(key) {
        Some(o) => match o.as_int() {
            Some(n) => n,
            None => default,
        },
        None => default,
    }
}

/// A number as a size; a negative one counts from the top of 64 bits.
pub open spec fn size_of_int(n: i64) -> int {
    if n < 0 {
        n + 0x1_0000_0000_0000_0000
    } else {
        n as int
    }
}

/// The bytes of a row and of a pixel, where they can be addressed.
pub open spec fn row_layout(parms: DictModel) -> Option<(int, int)> {
    let pixel_bits = size_of_int(int_entry(parms, "Colors"@, 1)) * size_of_int(
        int_entry(parms, "BitsPerComponent"@, 8),
    );
    let row_bits = size_of_int(int_entry(parms, "Columns"@, 1)) * pixel_bits;
    if pixel_bits > usize::MAX || row_bits > usize::MAX {
        None
    } else {
        Some(
            (
                (row_bits + 7) / 8,
                if pixel_bits == 0 {
                    1
                } else {
                    (pixel_bits + 7) / 8
                },
            ),
        )
    }
}

/// The data with the predictor undone that `DecodeParms` names.
pub open spec fn unpredicted(d: Seq<u8>, parms: DictModel) -> Decoded {
    let predictor = int_entry(parms, "Predictor"@, 1);
    if predictor <= 1 {
        Ok(d)
    } else {
        match row_layout(parms) {
            None => fault(DecodeProblem::Predictor),
            Some((row, pixel)) => if predictor == 2 {
                if row == 0 {
                    fault(DecodeProblem::Predictor)
                } else {
                    Ok(tiff_decoded(d, row, pixel))
                }
            } else {
                png_decoded(d, row, pixel)
            },
        }
    }
}

fn as_size(n: i64) -> (r: u128)
    ensures
        r == size_of_int(n),
        r <= u64::MAX,
{
    if n < 0 {
        (n as i128 + 0x1_0000_0000_0000_0000) as u128
    } else {
        n as u128
    }
}

fn product(a: u128, b: u128) -> (r: Option<u128>)
    requires
        a <= u64::MAX,
        b <= u64::MAX,
    ensures
        match r {
            Some(n) => n == a * b && n <= usize::MAX,
            None => a * b > usize::MAX,
        },
{
    assert(a * b <= u64::MAX * u64::MAX) by (nonlinear_arith)
        requires
            0 <= a <= u64::MAX,
            0 <= b <= u64::MAX,
    ;
    let n: u128 = a * b;
    if n <= usize::MAX as u128 {
        Some(n)
    } else {
        None
    }
}

/// Undoes the predictor that `parms` names.
pub fn apply_predictor(data: &[u8], parms: &Dictionary) -> (r: Result<Vec<u8>, PdfError>)
    ensures
        returns_decoded(r, unpredicted(data@, parms@)),
{
    let predictor: i64 = get_int_or(parms, "Predictor", 1);
    if predictor <= 1 {
        return Ok(clone_bytes(data));
    }
    let colors: u128 = as_size(get_int_or(parms, "Colors", 1));
    let bits: u128 = as_size(get_int_or(parms, "BitsPerComponent", 8));
    let columns: u128 = as_size(get_int_or(parms, "Columns", 1));
    let pixel_bits: u128 = match product(colors, bits) {
        Some(n) => n,
        None => {
            return Err(PdfError::DecodeError(DecodeProblem::Predictor));
        },
    };
    let row_bits: u128 = match product(columns, pixel_bits) {
        Some(n) => n,
        None => {
            return Err(PdfError::DecodeError(DecodeProblem::Predictor));
        },
    };
    let row: usize = ((row_bits + 7) / 8) as usize;
    let pixel: usize = if pixel_bits == 0 {
        1
    } else {
        ((pixel_bits + 7) / 8) as usize
    };
    if predictor == 2 {
        if row == 0 {
            Err(PdfError::DecodeError(DecodeProblem::Predictor))
        } else {
            Ok(tiff_predictor(data, row, pixel))
        }
    } else {
        png_predictor(data, row, pixel)
    }
}

/// The names of the filters of a stream, in the order in which they are undone.
pub open spec fn filter_list(dict: DictModel) -> Seq<Seq<char>> {
    match entry(dict, "Filter"@) {
        Some(ObjectModel::Name(n)) => seq![n],
        Some(ObjectModel::Array(items)) => names_in(items, items.len()),
        _ => seq![],
    }
}

/// The names among the first `n` items.
pub open spec fn names_in(items: Seq<ObjectModel>, n: nat) -> Seq<Seq<char>>
    decreases n,
{
    if n == 0 {
        seq![]
    } else {
        let before = names_in(items, (n - 1) as nat);
        match items[n - 1].name() {
            Some(name) => before.push(name),
            None => before,
        }
    }
}

/// The parameters of the `index`-th filter.
pub open spec fn filter_parms(dict: DictModel, index: int) -> Option<DictModel> {
    let parms = match entry(dict, "DecodeParms"@) {
        Some(o) => Some(o),
        None => entry(dict, "DP"@),
    };
    match parms {
        Some(ObjectModel::Dictionary(d)) => if index == 0 {
            Some(d)
        } else {
            None
        },
        Some(ObjectModel::Array(items)) => if index < items.len() {
            items[index].dict()
        } else {
            None
        },
        _ => None,
    }
}

/// The data with one filter undone.
pub open spec fn unfiltered(name: Seq<char>, d: Seq<u8>) -> Decoded {
    if name == "FlateDecode"@ || name == "Fl"@ {
        flate_decoded(d)
    } else if name == "ASCIIHexDecode"@ || name == "AHx"@ {
        ascii_hex_from(d, 0, seq![])
    } else if name == "ASCII85Decode"@ || name == "A85"@ {
        ascii85_decoded(d)
    } else if name == "LZWDecode"@ || name == "LZW"@ {
        lzw_decoded(d)
    } else if name == "DCTDecode"@ || name == "DCT"@ {
        jpeg_decoded(d)
    } else {
        Err(ErrorModel::UnsupportedFilter(name))
    }
}

/// The data with the `index`-th filter and its predictor undone.
pub open spec fn filter_step(dict: DictModel, name: Seq<char>, index: int, d: Seq<u8>) -> Decoded {
    match unfiltered(name, d) {
        Err(e) => Err(e),
        Ok(out) => match filter_parms(dict, index) {
            Some(parms) => unpredicted(out, parms),
            None => Ok(out),
        },
    }
}

/// The data with the filters from the `k`-th on undone.
pub open spec fn decoded_from(
    dict: DictModel,
    names: Seq<Seq<char>>,
    k: nat,
    d: Seq<u8>,
) -> Decoded
    decreases names.len() - k,
{
    if k >= names.len() {
        Ok(d)
    } else {
        match filter_step(dict, names[k as int], k as int, d) {
            Err(e) => Err(e),
            Ok(out) => decoded_from(dict, names, k + 1, out),
        }
    }
}

/// The data of a stream with all its filters undone.
pub open spec fn stream_decoded(dict: DictModel, raw: Seq<u8>) -> Decoded {
    decoded_from(dict, filter_list(dict), 0, raw)
}

/// Strings as sequences of characters.
spec fn texts(s: Seq<String>) -> Seq<Seq<char>> {
    s.map_values(|t: String| t@)
}

fn filter_names(dict: &Dictionary) -> (r: Vec<String>)
    ensures
        texts(r@) == filter_list(dict@),
{
    let mut r: Vec<String> = Vec::new();
    assert(texts(r@) =~= seq![]);
    match dict.get("Filter") {
        Some(Object::Name(n)) => {
            r.push(n.clone());
            assert(texts(r@) =~= seq![n@]);
        },
        Some(Object::Array(items)) => {
            let ghost ms = entry(dict@, "Filter"@)->Some_0->Array_0;
            let mut i: usize = 0;
            while i < items.len()
                invariant
                    0 <= i <= items@.len(),
                    ms.len() == items@.len(),
                    forall|j: int| 0 <= j < items@.len() ==> ms[j] == (#[trigger] items@[j])@,
                    texts(r@) == names_in(ms, i as nat),
                decreases items@.len() - i,
            {
                assert(ms[i as int] == items@[i as int]@);
                let ghost before = texts(r@);
                match &items[i] {
                    Object::Name(n) => {
                        r.push(n.clone());
                        assert(texts(r@) =~= before.push(n@));
                    },
                    _ => {},
                }
                i += 1;
            }
        },
        _ => {},
    }
    r
}

fn decode_parms_at(dict: &Dictionary, index: usize) -> (r: Option<&Dictionary>)
    ensures
        match r {
            Some(d) => filter_parms(dict@, index as int) == Some(d@),
            None => filter_parms(dict@, index as int) is None,
        },
{
    let parms = match dict.get("DecodeParms") {
        Some(o) => Some(o),
        None => dict.get("DP"),
    };
    match parms {
        Some(Object::Dictionary(d)) => if index == 0 {
            Some(d)
        } else {
            None
        },
        Some(Object::Array(items)) => if index < items.len() {
            items[index].as_dict()
        } else {
            None
        },
        _ => None,
    }
}

/// Undoes one filter.
fn undo_filter(name: &str, data: &[u8]) -> (r: Result<Vec<u8>, PdfError>)
    ensures
        returns_decoded(r, unfiltered(name@, data@)),
{
    if same_text(name, "FlateDecode") || same_text(name, "Fl") {
        flate_decode(data)
    } else if same_text(name, "ASCIIHexDecode") || same_text(name, "AHx") {
        ascii_hex_decode(data)
    } else if same_text(name, "ASCII85Decode") || same_text(name, "A85") {
        ascii85_decode(data)
    } else if same_text(name, "LZWDecode") || same_text(name, "LZW") {
        lzw_decode(data)
    } else if same_text(name, "DCTDecode") || same_text(name, "DCT") {
        jpeg_decode(data)
    } else {
        Err(PdfError::UnsupportedFilter(name.to_owned()))
    }
}

/// Undoes the filters of a stream.
pub fn decode_stream(stream: &Stream) -> (r: Result<Vec<u8>, PdfError>)
    ensures
        returns_decoded(r, stream_decoded(stream.dict@, stream.raw_data@)),
{
    let names = filter_names(&stream.dict);
    let ghost list = filter_list(stream.dict@);
    let mut data: Vec<u8> = clone_bytes(stream.raw_data.as_slice());
    let mut i: usize = 0;
    while i < names.len()
        invariant
            0 <= i <= names@.len(),
            list == texts(names@),
            list == filter_list(stream.dict@),
            stream_decoded(stream.dict@, stream.raw_data@) == decoded_from(
                stream.dict@,
                list,
                i as nat,
                data@,
            ),
        decreases names@.len() - i,
    {
        assert(list[i as int] == names@[i as int]@);
        data =
        match undo_filter(names[i].as_str(), data.as_slice()) {
            Ok(out) => out,
            Err(e) => {
                return Err(e);
            },
        };
        match decode_parms_at(&stream.dict, i) {
            Some(parms) => {
                data =
                match apply_predictor(data.as_slice(), parms) {
                    Ok(out) => out,
                    Err(e) => {
                        return Err(e);
                    },
                };
            },
            None => {},
        }
        i += 1;
    }
    Ok(data)
}

} // verus!
