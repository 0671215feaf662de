//! The coded samples of a JPEG image, followed block by block.
use vstd::arithmetic::power2::{lemma_pow2_strictly_increases, lemma_pow2_unfold, pow2};
use vstd::prelude::*;

verus! {

/// What is read from coded samples: a value and the place behind it, nothing where no code stands
/// there, or nothing where the samples end before.
pub ghost enum Reading {
    Value(int, int),
    Wrong,
    Short,
}

/// What is read from coded samples.
pub enum Found {
    Value(i64, u64),
    Wrong,
    Short,
}

impl View for Found {
    type V = Reading;

    open spec fn view(&self) -> Reading {
        match *self {
            Found::Value(v, at) => Reading::Value(v as int, at as int),
            Found::Wrong => Reading::Wrong,
            Found::Short => Reading::Short,
        }
    }
}

/// Where the fill bytes from `p` on end.
pub open spec fn fill_end(d: Seq<u8>, p: int) -> int
    decreases d.len() - p,
{
    if 0 <= p < d.len() && d[p] == 0xFF {
        fill_end(d, p + 1)
    } else {
        p
    }
}

proof fn fill_end_bounds(d: Seq<u8>, p: int)
    requires
        p <= d.len(),
    ensures
        p <= fill_end(d, p) <= d.len(),
    decreases d.len() - p,
{
    if 0 <= p < d.len() && d[p] == 0xFF {
        fill_end_bounds(d, p + 1);
    }
}

/// The coded bytes from `p` on, behind `acc`, up to the next marker: the bytes, the place behind
/// the marker, and the marker. A 255 with a zero behind it is a byte. The marker is zero where the
/// data end.
pub open spec fn coded(d: Seq<u8>, p: int, acc: Seq<u8>) -> (Seq<u8>, int, u8)
    decreases d.len() - p,
    via coded_shrinks
{
    if p < 0 || p >= d.len() {
        (acc, d.len() as int, 0)
    } else if d[p] != 0xFF {
        coded(d, p + 1, acc.push(d[p]))
    } else {
        let q = fill_end(d, p + 1);
        if q >= d.len() {
            (acc.push(0xFF), d.len() as int, 0)
        } else if d[q] == 0 {
            coded(d, q + 1, acc.push(0xFF))
        } else {
            (acc, q + 1, d[q])
        }
    }
}

#[via_fn]
proof fn coded_shrinks(d: Seq<u8>, p: int, acc: Seq<u8>) {
    if 0 <= p < d.len() {
        fill_end_bounds(d, p + 1);
    }
}

/// The value of a bit of a byte, the high one first.
pub open spec fn place_value(i: int) -> int {
    if i == 0 {
        128
    } else if i == 1 {
        64
    } else if i == 2 {
        32
    } else if i == 3 {
        16
    } else if i == 4 {
        8
    } else if i == 5 {
        4
    } else if i == 6 {
        2
    } else {
        1
    }
}

/// A bit of some bytes, the high one of each byte first.
pub open spec fn bit_of(b: Seq<u8>, at: int) -> int {
    (b[at / 8] as int / place_value(at % 8)) % 2
}

/// The number in `n` bits behind some others.
pub open spec fn bits_from(b: Seq<u8>, at: int, n: int, acc: int) -> int
    decreases n,
{
    if n <= 0 {
        acc
    } else {
        bits_from(b, at + 1, n - 1, acc * 2 + bit_of(b, at))
    }
}

/// The symbol whose code stands at `at`, by the table at `t`. Codes of one length are numbered one
/// behind the other, those of the next from twice the number behind the last; `code` has been
/// read, `first` is the first code of `length` and `index` its symbol.
pub open spec fn symbol_from(
    d: Seq<u8>,
    t: int,
    b: Seq<u8>,
    at: int,
    length: int,
    code: int,
    first: int,
    index: int,
) -> Reading
    decreases 17 - length,
{
    if length > 16 || t + length >= d.len() {
        Reading::Wrong
    } else if at / 8 >= b.len() {
        Reading::Short
    } else {
        let now = code * 2 + bit_of(b, at);
        let n = d[t + length] as int;
        if now < first + n {
            let place = t + 17 + index + (now - first);
            if now < first || place >= d.len() {
                Reading::Wrong
            } else {
                Reading::Value(d[place] as int, at + 1)
            }
        } else {
            symbol_from(d, t, b, at + 1, length + 1, now, (first + n) * 2, index + n)
        }
    }
}

/// The symbol whose code stands at `at`.
pub open spec fn symbol_at(d: Seq<u8>, t: int, b: Seq<u8>, at: int) -> Reading {
    symbol_from(d, t, b, at, 1, 0, 0, 0)
}

/// The difference at `at` to the first coefficient of the block before.
pub open spec fn difference_at(d: Seq<u8>, t: int, b: Seq<u8>, at: int) -> Reading {
    match symbol_at(d, t, b, at) {
        Reading::Value(size, next) => if size > 15 {
            Reading::Wrong
        } else if next + size > 8 * b.len() {
            Reading::Short
        } else {
            let v = bits_from(b, next, size, 0);
            let whole = pow2(size as nat) as int;
            Reading::Value(
                if 2 * v < whole {
                    v - whole + 1
                } else {
                    v
                },
                next + size,
            )
        },
        other => other,
    }
}

/// The place behind the other coefficients of a block, from the `pos`-th on.
pub open spec fn others_end(d: Seq<u8>, t: int, b: Seq<u8>, at: int, pos: int) -> Reading
    decreases 80 - pos,
{
    if pos >= 64 {
        Reading::Value(0, at)
    } else {
        match symbol_at(d, t, b, at) {
            Reading::Value(symbol, next) => {
                let run = symbol / 16;
                let size = symbol % 16;
                if size == 0 && run != 15 {
                    Reading::Value(0, next)
                } else if size == 0 {
                    others_end(d, t, b, next, pos + 16)
                } else if next + size > 8 * b.len() {
                    Reading::Short
                } else if run < 0 || run > 15 {
                    Reading::Wrong
                } else {
                    others_end(d, t, b, next + size, pos + run + 1)
                }
            },
            other => other,
        }
    }
}

/// A component of a scan: its number, how many blocks of it stand together, and where its tables
/// of codes are; zero for a table that is not there.
#[derive(Debug, Clone, Copy)]
pub struct ScanPart {
    pub comp: usize,
    pub blocks: usize,
    pub first: usize,
    pub other: usize,
}

/// A number without its sign.
pub open spec fn distance(v: int) -> int {
    if v < 0 {
        -v
    } else {
        v
    }
}

/// The product of a first coefficient and its quantization fits into four bytes.
pub open spec fn product_fits(v: int, quant: int) -> bool {
    distance(v) * quant <= 0x7FFF_FFFF
}

/// The greatest of the first coefficients, without its sign.
pub open spec fn farthest(lasts: Seq<i64>, n: nat) -> int
    decreases n,
{
    if n == 0 {
        0
    } else {
        let before = farthest(lasts, (n - 1) as nat);
        let v = distance(lasts[n - 1] as int);
        if v > before {
            v
        } else {
            before
        }
    }
}

/// Whatever differences of up to `size` bits `left` blocks have, no product leaves four bytes.
pub open spec fn any_fit(lasts: Seq<i64>, left: nat, size: int, quant: int) -> bool {
    (farthest(lasts, lasts.len()) + left * pow2(size as nat)) * quant <= 0x7FFF_FFFF
}

/// No product of a first coefficient and its quantization leaves four bytes in `left` blocks from
/// `at` on, the first of which is the `j`-th of its group. Where no code stands, the scan ends;
/// where the bytes end before the blocks, it has to hold whatever these and the `rest` that follow
/// are.
pub open spec fn blocks_fit(
    d: Seq<u8>,
    order: Seq<ScanPart>,
    limits: (int, int),
    b: Seq<u8>,
    at: int,
    j: int,
    left: nat,
    rest: nat,
    lasts: Seq<i64>,
) -> bool
    decreases left,
{
    let (size, quant) = limits;
    if left == 0 {
        true
    } else {
        let part = order[j];
        if part.first == 0 || part.other == 0 {
            true
        } else {
            match difference_at(d, part.first as int, b, at) {
                Reading::Wrong => true,
                Reading::Short => any_fit(lasts, left + rest, size, quant),
                Reading::Value(diff, next) => {
                    let v = lasts[part.comp as int] + diff;
                    product_fits(v, quant) && match others_end(d, part.other as int, b, next, 1) {
                        Reading::Wrong => true,
                        Reading::Short => any_fit(
                            lasts.update(part.comp as int, v as i64),
                            left + rest,
                            size,
                            quant,
                        ),
                        Reading::Value(_, behind) => blocks_fit(
                            d,
                            order,
                            limits,
                            b,
                            behind,
                            if j + 1 >= order.len() {
                                0
                            } else {
                                j + 1
                            },
                            (left - 1) as nat,
                            rest,
                            lasts.update(part.comp as int, v as i64),
                        ),
                    }
                },
            }
        }
    }
}

/// No coefficients yet.
pub open spec fn no_lasts() -> Seq<i64> {
    seq![0i64, 0, 0, 0]
}

/// Markers that restart a scan.
pub open spec fn is_restart(m: u8) -> bool {
    0xD0 <= m <= 0xD7
}

/// The place behind the marker that ends a scan of `left` groups of blocks from `p` on, and the
/// marker; `None` where a product could leave four bytes. Coefficients start from zero again behind
/// every `restart` groups, where a marker has to stand that says so; `restart` is zero where they
/// do not.
pub open spec fn scan_end(
    d: Seq<u8>,
    order: Seq<ScanPart>,
    limits: (int, int),
    restart: nat,
    p: int,
    left: nat,
) -> Option<(int, u8)>
    decreases left,
{
    let (b, next, m) = coded(d, p, seq![]);
    if restart == 0 || left <= restart {
        if blocks_fit(d, order, limits, b, 0, 0, left * order.len(), 0, no_lasts()) {
            Some((next, m))
        } else {
            None
        }
    } else if is_restart(m) && blocks_fit(
        d,
        order,
        limits,
        b,
        0,
        0,
        restart * order.len(),
        ((left - restart) as nat) * order.len(),
        no_lasts(),
    ) {
        scan_end(d, order, limits, restart, next, (left - restart) as nat)
    } else {
        None
    }
}

/// A power of two.
pub(crate) fn power(n: u8) -> (r: u64)
    requires
        n <= 15,
    ensures
        r == pow2(n as nat),
        1 <= r <= 0x8000,
{
    let mut i: u8 = 0;
    let mut r: u64 = 1;
    proof {
        vstd::arithmetic::power2::lemma2_to64();
    }
    while i < n
        invariant
            i <= n <= 15,
            r == pow2(i as nat),
            1 <= r <= 0x8000,
        decreases n - i,
    {
        proof {
            lemma_pow2_unfold((i + 1) as nat);
            vstd::arithmetic::power2::lemma2_to64();
            if i + 1 < 15 {
                lemma_pow2_strictly_increases((i + 1) as nat, 15);
            }
        }
        r = r * 2;
        i += 1;
    }
    r
}

fn find_fill_end(data: &[u8], from: usize) -> (r: usize)
    requires
        from <= data@.len(),
    ensures
        r == fill_end(data@, from as int),
        from <= r <= data@.len(),
{
    let n: usize = data.len();
    let mut p: usize = from;
    while p < n && data[p] == 0xFF
        invariant
            n == data@.len(),
            from <= p <= n,
            fill_end(data@, from as int) == fill_end(data@, p as int),
        decreases n - p,
    {
        p += 1;
    }
    p
}

/// Reads the coded bytes up to the next marker.
pub(crate) fn read_coded(data: &[u8], from: usize) -> (r: (Vec<u8>, usize, u8))
    requires
        from <= data@.len(),
    ensures
        (r.0@, r.1 as int, r.2) == coded(data@, from as int, seq![]),
        r.0@.len() <= data@.len(),
        from <= r.1 <= data@.len(),
        r.2 != 0 ==> from + 2 <= r.1 && data@[r.1 - 1] == r.2 && data@[r.1 - 2] == 0xFF,
{
    let n: usize = data.len();
    let mut out: Vec<u8> = Vec::new();
    let mut p: usize = from;
    assert(out@ =~= seq![]);
    while p < n
        invariant
            n == data@.len(),
            from <= p <= n,
            out@.len() <= p - from,
            coded(data@, from as int, seq![]) == coded(data@, p as int, out@),
        decreases n - p,
    {
        let v: u8 = data[p];
        if v != 0xFF {
            out.push(v);
            p += 1;
        } else {
            let q: usize = find_fill_end(data, p + 1);
            if q >= n {
                out.push(0xFF);
                return (out, n, 0);
            }
            if data[q] == 0 {
                out.push(0xFF);
                p = q + 1;
            } else {
                proof {
                    filled(data@, p + 1, q as int);
                }
                return (out, q + 1, data[q]);
            }
        }
    }
    (out, n, 0)
}

proof fn filled(d: Seq<u8>, p: int, q: int)
    requires
        0 <= p <= d.len(),
        q == fill_end(d, p),
    ensures
        p < q ==> d[q - 1] == 0xFF,
    decreases d.len() - p,
{
    if p < d.len() && d[p] == 0xFF {
        fill_end_bounds(d, p + 1);
        filled(d, p + 1, q);
    }
}

fn read_bit(b: &[u8], at: u64) -> (r: u64)
    requires
        at / 8 < b@.len(),
    ensures
        r == bit_of(b@, at as int),
        r <= 1,
{
    let i: u64 = at % 8;
    let value: u8 = if i == 0 {
        128
    } else if i == 1 {
        64
    } else if i == 2 {
        32
    } else if i == 3 {
        16
    } else if i == 4 {
        8
    } else if i == 5 {
        4
    } else if i == 6 {
        2
    } else {
        1
    };
    ((b[(at / 8) as usize] / value) % 2) as u64
}

fn read_bits(b: &[u8], from: u64, n: u8) -> (r: i64)
    requires
        n <= 15,
        b@.len() <= 0x7FFF_FFFF,
        from + n <= 8 * b@.len(),
    ensures
        r == bits_from(b@, from as int, n as int, 0),
        0 <= r < pow2(n as nat),
{
    let mut at: u64 = from;
    let mut i: u8 = 0;
    let mut v: i64 = 0;
    proof {
        vstd::arithmetic::power2::lemma2_to64();
    }
    while i < n
        invariant
            i <= n <= 15,
            b@.len() <= 0x7FFF_FFFF,
            from + n <= 8 * b@.len(),
            at == from + i,
            0 <= v < pow2(i as nat),
            v <= 0x8000,
            bits_from(b@, from as int, n as int, 0) == bits_from(b@, at as int, n - i, v as int),
        decreases n - i,
    {
        proof {
            lemma_pow2_unfold((i + 1) as nat);
            vstd::arithmetic::power2::lemma2_to64();
            if i + 1 < 15 {
                lemma_pow2_strictly_increases((i + 1) as nat, 15);
            }
        }
        v = v * 2 + read_bit(b, at) as i64;
        at += 1;
        i += 1;
    }
    v
}

fn read_symbol(data: &[u8], t: usize, b: &[u8], from: u64) -> (r: Found)
    requires
        data@.len() <= 0x7FFF_FFFF,
        b@.len() <= 0x7FFF_FFFF,
    ensures
        r@ == symbol_at(data@, t as int, b@, from as int),
        match r {
            Found::Value(v, at) => 0 <= v <= 255 && at <= 8 * b@.len(),
            _ => true,
        },
{
    let size: u64 = data.len() as u64;
    let total: u64 = b.len() as u64;
    let mut at: u64 = from;
    let mut length: u64 = 1;
    let mut code: u64 = 0;
    let mut first: u64 = 0;
    let mut index: u64 = 0;
    while length <= 16
        invariant
            1 <= length <= 17,
            size == data@.len() <= 0x7FFF_FFFF,
            total == b@.len() <= 0x7FFF_FFFF,
            index <= 255 * (length - 1),
            length == 1 ==> code == 0,
            code < 0x1_0000,
            length == 2 ==> code < 0x2,
            length == 3 ==> code < 0x4,
            length == 4 ==> code < 0x8,
            length == 5 ==> code < 0x10,
            length == 6 ==> code < 0x20,
            length == 7 ==> code < 0x40,
            length == 8 ==> code < 0x80,
            length == 9 ==> code < 0x100,
            length == 10 ==> code < 0x200,
            length == 11 ==> code < 0x400,
            length == 12 ==> code < 0x800,
            length == 13 ==> code < 0x1000,
            length == 14 ==> code < 0x2000,
            length == 15 ==> code < 0x4000,
            length == 16 ==> code < 0x8000,
            first <= 2 * code,
            symbol_at(data@, t as int, b@, from as int) == symbol_from(
                data@,
                t as int,
                b@,
                at as int,
                length as int,
                code as int,
                first as int,
                index as int,
            ),
        decreases 17 - length,
    {
        if t as u64 >= size || t as u64 + length >= size {
            return Found::Wrong;
        }
        if at / 8 >= total {
            return Found::Short;
        }
        let now: u64 = code * 2 + read_bit(b, at);
        let n: u64 = data[(t as u64 + length) as usize] as u64;
        if now < first + n {
            if now < first {
                return Found::Wrong;
            }
            let place: u64 = t as u64 + 17 + index + (now - first);
            if place >= size {
                return Found::Wrong;
            }
            return Found::Value(data[place as usize] as i64, at + 1);
        }
        code = now;
        first = (first + n) * 2;
        index = index + n;
        at += 1;
        length += 1;
    }
    Found::Wrong
}

fn read_difference(data: &[u8], t: usize, b: &[u8], at: u64) -> (r: Found)
    requires
        data@.len() <= 0x7FFF_FFFF,
        b@.len() <= 0x7FFF_FFFF,
    ensures
        r@ == difference_at(data@, t as int, b@, at as int),
        match r {
            Found::Value(v, next) => -0x8000 <= v <= 0x8000 && next <= 8 * b@.len(),
            _ => true,
        },
{
    match read_symbol(data, t, b, at) {
        Found::Value(size, next) => {
            if size > 15 {
                return Found::Wrong;
            }
            if next + size as u64 > 8 * b.len() as u64 {
                return Found::Short;
            }
            let v: i64 = read_bits(b, next, size as u8);
            let whole: i64 = power(size as u8) as i64;
            let diff: i64 = if 2 * v < whole {
                v - whole + 1
            } else {
                v
            };
            Found::Value(diff, next + size as u64)
        },
        other => other,
    }
}

fn find_others_end(data: &[u8], t: usize, b: &[u8], from: u64) -> (r: Found)
    requires
        data@.len() <= 0x7FFF_FFFF,
        b@.len() <= 0x7FFF_FFFF,
    ensures
        r@ == others_end(data@, t as int, b@, from as int, 1),
{
    let total: u64 = b.len() as u64;
    let mut at: u64 = from;
    let mut pos: i64 = 1;
    while pos < 64
        invariant
            data@.len() <= 0x7FFF_FFFF,
            total == b@.len() <= 0x7FFF_FFFF,
            1 <= pos <= 80,
            others_end(data@, t as int, b@, from as int, 1) == others_end(
                data@,
                t as int,
                b@,
                at as int,
                pos as int,
            ),
        decreases 80 - pos,
    {
        match read_symbol(data, t, b, at) {
            Found::Value(symbol, next) => {
                let run: i64 = symbol / 16;
                let size: i64 = symbol % 16;
                if size == 0 && run != 15 {
                    return Found::Value(0, next);
                } else if size == 0 {
                    at = next;
                    pos += 16;
                } else {
                    if next + size as u64 > 8 * total {
                        return Found::Short;
                    }
                    at = next + size as u64;
                    pos += run + 1;
                }
            },
            other => {
                return other;
            },
        }
    }
    Found::Value(0, at)
}

/// The sizes and the quantization that are followed are those of an image.
pub open spec fn limits_fit(limits: (u8, u16)) -> bool {
    limits.0 <= 15 && limits.1 >= 1
}

/// The limits as numbers.
pub open spec fn limit_numbers(limits: (u8, u16)) -> (int, int) {
    (limits.0 as int, limits.1 as int)
}

/// Coefficients that stay where products fit.
spec fn lasts_small(lasts: Seq<i64>) -> bool {
    &&& lasts.len() == 4
    &&& forall|i: int| 0 <= i < 4 ==> -0x7FFF_FFFF <= #[trigger] lasts[i] <= 0x7FFF_FFFF
}

fn do_any_fit(lasts: &Vec<i64>, left: u64, limits: (u8, u16)) -> (r: bool)
    requires
        lasts_small(lasts@),
        limits_fit(limits),
        left <= 0x10_0000_0000,
    ensures
        r == any_fit(lasts@, left as nat, limits.0 as int, limits.1 as int),
{
    let mut far: i64 = 0;
    let mut i: usize = 0;
    while i < 4
        invariant
            i <= 4,
            lasts_small(lasts@),
            0 <= far <= 0x7FFF_FFFF,
            far == farthest(lasts@, i as nat),
        decreases 4 - i,
    {
        let x: i64 = lasts[i];
        let v: i64 = if x < 0 {
            -x
        } else {
            x
        };
        if v > far {
            far = v;
        }
        i += 1;
    }
    let step: u64 = power(limits.0);
    assert(left * step <= 0x10_0000_0000 * 0x8000) by (nonlinear_arith)
        requires
            left <= 0x10_0000_0000,
            step <= 0x8000,
    ;
    let most: u128 = far as u128 + left as u128 * step as u128;
    let quant: u128 = limits.1 as u128;
    assert(most * quant <= 0x8001_0000_0000_0000 * 0xFFFF) by (nonlinear_arith)
        requires
            most <= 0x8001_0000_0000_0000,
            quant <= 0xFFFF,
    ;
    most * quant <= 0x7FFF_FFFF
}

fn does_product_fit(v: i64, quant: u16) -> (r: bool)
    requires
        -0x8001_0000 <= v <= 0x8001_0000,
        quant >= 1,
    ensures
        r == product_fits(v as int, quant as int),
        r ==> -0x7FFF_FFFF <= v <= 0x7FFF_FFFF,
{
    let far: u64 = if v < 0 {
        (-v) as u64
    } else {
        v as u64
    };
    let q: u64 = quant as u64;
    assert(far * q <= 0x8001_0000 * 0xFFFF) by (nonlinear_arith)
        requires
            far <= 0x8001_0000,
            q <= 0xFFFF,
    ;
    assert(far * q <= 0x7FFF_FFFF ==> far <= 0x7FFF_FFFF) by (nonlinear_arith)
        requires
            q >= 1,
            far >= 0,
    ;
    far * q <= 0x7FFF_FFFF
}

/// Components that are counted from zero.
pub open spec fn order_fits(order: Seq<ScanPart>) -> bool {
    &&& 1 <= order.len() <= 64
    &&& forall|j: int| 0 <= j < order.len() ==> (#[trigger] order[j]).comp < 4
}

fn do_blocks_fit(
    data: &[u8],
    order: &Vec<ScanPart>,
    limits: (u8, u16),
    b: &[u8],
    count: u64,
    rest: u64,
) -> (r: bool)
    requires
        data@.len() <= 0x7FFF_FFFF,
        b@.len() <= 0x7FFF_FFFF,
        order_fits(order@),
        limits_fit(limits),
        count + rest <= 0x10_0000_0000,
    ensures
        r == blocks_fit(
            data@,
            order@,
            limit_numbers(limits),
            b@,
            0,
            0,
            count as nat,
            rest as nat,
            no_lasts(),
        ),
{
    let mut lasts: Vec<i64> = Vec::new();
    lasts.push(0);
    lasts.push(0);
    lasts.push(0);
    lasts.push(0);
    assert(lasts@ =~= no_lasts());
    let ghost numbers = limit_numbers(limits);
    let ghost goal = blocks_fit(
        data@,
        order@,
        numbers,
        b@,
        0,
        0,
        count as nat,
        rest as nat,
        no_lasts(),
    );
    let mut at: u64 = 0;
    let mut j: usize = 0;
    let mut left: u64 = count;
    while left > 0
        invariant
            data@.len() <= 0x7FFF_FFFF,
            b@.len() <= 0x7FFF_FFFF,
            order_fits(order@),
            limits_fit(limits),
            numbers == limit_numbers(limits),
            left + rest <= 0x10_0000_0000,
            j < order@.len(),
            lasts_small(lasts@),
            goal == blocks_fit(
                data@,
                order@,
                numbers,
                b@,
                0,
                0,
                count as nat,
                rest as nat,
                no_lasts(),
            ),
            goal == blocks_fit(
                data@,
                order@,
                numbers,
                b@,
                at as int,
                j as int,
                left as nat,
                rest as nat,
                lasts@,
            ),
        decreases left,
    {
        let part: ScanPart = order[j];
        assert(part.comp < 4);
        if part.first == 0 || part.other == 0 {
            return true;
        }
        let (diff, next): (i64, u64) = match read_difference(data, part.first, b, at) {
            Found::Wrong => {
                return true;
            },
            Found::Short => {
                return do_any_fit(&lasts, left + rest, limits);
            },
            Found::Value(diff, next) => (diff, next),
        };
        let v: i64 = lasts[part.comp] + diff;
        if !does_product_fit(v, limits.1) {
            return false;
        }
        lasts.set(part.comp, v);
        let behind: u64 = match find_others_end(data, part.other, b, next) {
            Found::Wrong => {
                return true;
            },
            Found::Short => {
                return do_any_fit(&lasts, left + rest, limits);
            },
            Found::Value(_, p) => p,
        };
        at = behind;
        j = if j + 1 >= order.len() {
            0
        } else {
            j + 1
        };
        left -= 1;
    }
    true
}

/// Follows a scan to the marker that ends it.
pub(crate) fn find_scan_end(
    data: &[u8],
    order: &Vec<ScanPart>,
    limits: (u8, u16),
    restart: u64,
    from: usize,
    count: u64,
) -> (r: Option<(usize, u8)>)
    requires
        data@.len() <= 0x7FFF_FFFF,
        order_fits(order@),
        limits_fit(limits),
        from <= data@.len(),
        restart <= 0xFFFF,
        count <= 0x1000_0000,
    ensures
        match (scan_end(
            data@,
            order@,
            limit_numbers(limits),
            restart as nat,
            from as int,
            count as nat,
        ), r) {
            (Some((p, m)), Some((q, k))) => p == q && m == k && from <= q <= data@.len() && (k != 0
                ==> from + 2 <= q && data@[q - 1] == k && data@[q - 2] == 0xFF),
            (None, None) => true,
            _ => false,
        },
{
    let per: u64 = order.len() as u64;
    let mut p: usize = from;
    let mut left: u64 = count;
    let ghost numbers = limit_numbers(limits);
    let ghost goal = scan_end(data@, order@, numbers, restart as nat, from as int, count as nat);
    while restart > 0 && left > restart
        invariant
            data@.len() <= 0x7FFF_FFFF,
            order_fits(order@),
            limits_fit(limits),
            numbers == limit_numbers(limits),
            per == order@.len(),
            from <= p <= data@.len(),
            restart <= 0xFFFF,
            left <= 0x1000_0000,
            goal == scan_end(data@, order@, numbers, restart as nat, from as int, count as nat),
            goal == scan_end(data@, order@, numbers, restart as nat, p as int, left as nat),
        decreases left,
    {
        let (b, next, m): (Vec<u8>, usize, u8) = read_coded(data, p);
        if !(0xD0 <= m && m <= 0xD7) {
            return None;
        }
        let after: u64 = left - restart;
        assert(restart * per + after * per == left * per) by (nonlinear_arith)
            requires
                restart + after == left,
        ;
        assert(0 <= left * per <= 0x1000_0000 * 64) by (nonlinear_arith)
            requires
                0 <= left <= 0x1000_0000,
                0 <= per <= 64,
        ;
        assert(0 <= restart * per && 0 <= after * per) by (nonlinear_arith)
            requires
                0 <= restart,
                0 <= after,
                0 <= per,
        ;
        if !do_blocks_fit(data, order, limits, b.as_slice(), restart * per, after * per) {
            return None;
        }
        p = next;
        left = after;
    }
    let (b, next, m): (Vec<u8>, usize, u8) = read_coded(data, p);
    assert(0 <= left * per <= 0x1000_0000 * 64) by (nonlinear_arith)
        requires
            0 <= left <= 0x1000_0000,
            0 <= per <= 64,
    ;
    if do_blocks_fit(data, order, limits, b.as_slice(), left * per, 0) {
        Some((next, m))
    } else {
        None
    }
}

} // verus!
