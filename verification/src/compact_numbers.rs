//! Places that a compact font writes as numbers with a point.
use vstd::prelude::*;

verus! {

/// The text that half bytes write, from the one at `p` on, behind `acc`: digits, points, signs and
/// exponents, up to a half byte that ends it. `None` where there is no such end, the text is longer
/// than 64 characters, or a half byte means nothing.
pub open spec fn text_from(d: Seq<u8>, p: int, end: int, low: bool, acc: Seq<u8>) -> Option<Seq<u8>>
    decreases 2 * (end - p) - (if low { 1int } else { 0 }),
{
    if p < 0 || p >= end {
        None
    } else {
        let half = if low {
            d[p] as int % 16
        } else {
            d[p] as int / 16
        };
        let next = if low {
            p + 1
        } else {
            p
        };
        if half == 15 {
            Some(acc)
        } else if half == 13 || acc.len() >= 64 || half == 12 && acc.len() >= 63 {
            None
        } else if half == 12 {
            text_from(d, next, end, !low, acc.push(69).push(45))
        } else {
            text_from(d, next, end, !low, acc.push(half_char(half)))
        }
    }
}

/// The character that a half byte stands for.
pub open spec fn half_char(half: int) -> u8 {
    if half < 10 {
        (48 + half) as u8
    } else if half == 10 {
        46
    } else if half == 11 {
        69
    } else {
        45
    }
}

/// Where the digits from `i` on end.
pub open spec fn digits_end(t: Seq<u8>, i: int) -> int
    decreases t.len() - i,
{
    if 0 <= i < t.len() && 48 <= t[i] <= 57 {
        digits_end(t, i + 1)
    } else {
        i
    }
}

/// The number that the digits between two places write, held at a thousand.
pub open spec fn held_number(t: Seq<u8>, a: int, b: int) -> int
    decreases b - a,
{
    if b <= a {
        0
    } else {
        let v = held_number(t, a, b - 1) * 10 + (t[b - 1] - 48);
        if v > 1000 {
            1000
        } else {
            v
        }
    }
}

/// A number as it is written: its sign, its digits, and before which of them the point stands.
pub ghost struct Written {
    pub negative: bool,
    pub digits: Seq<u8>,
    pub point: int,
}

/// A number that a text writes: digits with a point among them or not, at least one digit, and an
/// exponent or not. Behind a thousand places an exponent makes no difference.
pub open spec fn written(t: Seq<u8>) -> Option<Written> {
    let s: int = if t.len() > 0 && t[0] == 45 {
        1
    } else {
        0
    };
    let a = digits_end(t, s);
    let dot = 0 <= a < t.len() && t[a] == 46;
    let b = if dot {
        digits_end(t, a + 1)
    } else {
        a
    };
    let digits = t.subrange(s, a) + (if dot {
        t.subrange(a + 1, b)
    } else {
        seq![]
    });
    if digits.len() == 0 {
        None
    } else if b >= t.len() {
        Some(Written { negative: s == 1, digits, point: a - s })
    } else if t[b] != 69 {
        None
    } else {
        let minus = b + 1 < t.len() && t[b + 1] == 45;
        let c = if minus {
            b + 2
        } else {
            b + 1
        };
        let e = digits_end(t, c);
        if e <= c || e < t.len() {
            None
        } else {
            let n = held_number(t, c, e);
            Some(
                Written {
                    negative: s == 1,
                    digits,
                    point: (a - s) + (if minus {
                        -n
                    } else {
                        n
                    }),
                },
            )
        }
    }
}

/// The digit at a place; there are zeros on both sides of what is written.
pub open spec fn digit_at(m: Seq<u8>, k: int) -> int {
    if 0 <= k < m.len() {
        m[k] as int - 48
    } else {
        0
    }
}

/// The number before the point, of which `k` digits are left, held at two to the 31.
pub open spec fn whole_part(m: Seq<u8>, k: int) -> int
    decreases k,
{
    if k <= 0 {
        0
    } else {
        let v = whole_part(m, k - 1) * 10 + digit_at(m, k - 1);
        if v > 0x8000_0000 {
            0x8000_0000
        } else {
            v
        }
    }
}

/// How many bits a number has.
pub open spec fn bit_count(n: int) -> int
    decreases n,
{
    if n <= 0 {
        0
    } else {
        1 + bit_count(n / 2)
    }
}

/// A power of five.
pub open spec fn five_to(n: nat) -> int
    decreases n,
{
    if n == 0 {
        1
    } else {
        5 * five_to((n - 1) as nat)
    }
}

/// What `j` digits behind the point lack to be nines.
pub open spec fn lack(m: Seq<u8>, point: int, j: int) -> int
    decreases j,
{
    if j <= 0 {
        0
    } else {
        lack(m, point, j - 1) * 10 + (9 - digit_at(m, point + j - 1))
    }
}

/// Whether the nearest number with 53 bits is the next whole one: what is missing to it is at most
/// half of the last bit, so that many digits behind the point lack less than the power of five
/// that this half is.
pub open spec fn rounds_up(m: Seq<u8>, point: int, n: int) -> bool {
    let places = 54 - bit_count(n);
    lack(m, point, places) < five_to(places as nat)
}

/// The whole part of the nearest number with 53 bits, held at what 32 bits with a sign can say.
pub open spec fn cut_off(w: Written) -> int {
    let n = whole_part(w.digits, w.point);
    let v = if n < 0x8000_0000 && rounds_up(w.digits, w.point, n) {
        n + 1
    } else {
        n
    };
    let held = if v > 0x7FFF_FFFF {
        0x7FFF_FFFF
    } else {
        v
    };
    if w.negative {
        -held
    } else {
        held
    }
}

/// The number that the half bytes from `p` on write, without what is behind its point.
pub open spec fn real_at(d: Seq<u8>, p: int, end: int) -> Option<int> {
    match text_from(d, p, end, false, seq![]) {
        None => None,
        Some(t) => match written(t) {
            None => None,
            Some(w) => Some(cut_off(w)),
        },
    }
}

fn read_text(data: &[u8], from: usize, end: usize) -> (r: Option<Vec<u8>>)
    requires
        from <= end <= data@.len(),
    ensures
        match (text_from(data@, from as int, end as int, false, seq![]), r) {
            (Some(t), Some(v)) => t == v@ && t.len() <= 64,
            (None, None) => true,
            _ => false,
        },
{
    let mut p: usize = from;
    let mut low: bool = false;
    let mut out: Vec<u8> = Vec::new();
    assert(out@ =~= seq![]);
    while p < end
        invariant
            from <= p <= end <= data@.len(),
            out@.len() <= 64,
            text_from(data@, from as int, end as int, false, seq![]) == text_from(
                data@,
                p as int,
                end as int,
                low,
                out@,
            ),
        decreases 2 * (end - p) - (if low { 1int } else { 0 }),
    {
        let half: u8 = if low {
            data[p] % 16
        } else {
            data[p] / 16
        };
        if half == 15 {
            return Some(out);
        }
        if half == 13 || out.len() >= 64 || half == 12 && out.len() >= 63 {
            return None;
        }
        if half == 12 {
            out.push(69);
            out.push(45);
        } else if half < 10 {
            out.push(48 + half);
        } else if half == 10 {
            out.push(46);
        } else if half == 11 {
            out.push(69);
        } else {
            out.push(45);
        }
        if low {
            p += 1;
        }
        low = !low;
    }
    None
}

fn find_digits_end(t: &[u8], from: usize) -> (r: usize)
    requires
        from <= t@.len(),
    ensures
        r == digits_end(t@, from as int),
        from <= r <= t@.len(),
        forall|i: int| from <= i < r ==> 48 <= #[trigger] t@[i] <= 57,
{
    let n: usize = t.len();
    let mut i: usize = from;
    while i < n && 48 <= t[i] && t[i] <= 57
        invariant
            n == t@.len(),
            from <= i <= n,
            digits_end(t@, from as int) == digits_end(t@, i as int),
            forall|k: int| from <= k < i ==> 48 <= #[trigger] t@[k] <= 57,
        decreases n - i,
    {
        i += 1;
    }
    i
}

fn read_held(t: &[u8], a: usize, b: usize) -> (r: i64)
    requires
        a <= b <= t@.len(),
        forall|i: int| a <= i < b ==> 48 <= #[trigger] t@[i] <= 57,
    ensures
        r == held_number(t@, a as int, b as int),
        0 <= r <= 1000,
{
    let mut i: usize = a;
    let mut v: i64 = 0;
    while i < b
        invariant
            a <= i <= b <= t@.len(),
            forall|k: int| a <= k < b ==> 48 <= #[trigger] t@[k] <= 57,
            0 <= v <= 1000,
            v == held_number(t@, a as int, i as int),
        decreases b - i,
    {
        v = v * 10 + (t[i] as i64 - 48);
        if v > 1000 {
            v = 1000;
        }
        i += 1;
    }
    v
}

/// All bytes are digits.
spec fn all_digits(m: Seq<u8>) -> bool {
    forall|i: int| 0 <= i < m.len() ==> 48 <= #[trigger] m[i] <= 57
}

fn read_written(t: &[u8]) -> (r: Option<(bool, Vec<u8>, i64)>)
    requires
        t@.len() <= 64,
    ensures
        match (written(t@), r) {
            (Some(w), Some((negative, digits, point))) => w.negative == negative && w.digits
                == digits@ && w.point == point && all_digits(digits@) && -2000 <= point <= 2000,
            (None, None) => true,
            _ => false,
        },
{
    let n: usize = t.len();
    let s: usize = if n > 0 && t[0] == 45 {
        1
    } else {
        0
    };
    let a: usize = find_digits_end(t, s);
    let mut digits: Vec<u8> = Vec::new();
    digits.extend_from_slice(vstd::slice::slice_subrange(t, s, a));
    assert(digits@ =~= t@.subrange(s as int, a as int));
    let dot: bool = a < n && t[a] == 46;
    let b: usize = if dot {
        find_digits_end(t, a + 1)
    } else {
        a
    };
    let ghost before = digits@;
    if dot {
        digits.extend_from_slice(vstd::slice::slice_subrange(t, a + 1, b));
        assert(digits@ =~= before + t@.subrange(a + 1, b as int));
    } else {
        assert(digits@ =~= before + seq![]);
    }
    assert(all_digits(digits@)) by {
        assert forall|i: int| 0 <= i < digits@.len() implies 48 <= #[trigger] digits@[i] <= 57 by {
            if i < a - s {
                assert(digits@[i] == t@[s + i]);
            } else {
                assert(digits@[i] == t@[a + 1 + (i - (a - s))]);
            }
        }
    }
    if digits.len() == 0 {
        return None;
    }
    let point: i64 = (a - s) as i64;
    if b >= n {
        return Some((s == 1, digits, point));
    }
    if t[b] != 69 {
        return None;
    }
    let minus: bool = b + 1 < n && t[b + 1] == 45;
    let c: usize = if minus {
        b + 2
    } else {
        b + 1
    };
    let e: usize = find_digits_end(t, c);
    if e <= c || e < n {
        return None;
    }
    let held: i64 = read_held(t, c, e);
    let moved: i64 = if minus {
        point - held
    } else {
        point + held
    };
    Some((s == 1, digits, moved))
}

fn read_digit(m: &Vec<u8>, k: i64) -> (r: i64)
    requires
        all_digits(m@),
    ensures
        r == digit_at(m@, k as int),
        0 <= r <= 9,
{
    if 0 <= k && (k as u64) < m.len() as u64 {
        m[k as usize] as i64 - 48
    } else {
        0
    }
}

fn read_whole(m: &Vec<u8>, point: i64) -> (r: i64)
    requires
        all_digits(m@),
        point <= 2000,
    ensures
        r == whole_part(m@, point as int),
        0 <= r <= 0x8000_0000,
{
    let mut k: i64 = 0;
    let mut v: i64 = 0;
    while k < point
        invariant
            all_digits(m@),
            0 <= k <= 2000,
            k <= point || k == 0,
            point <= 2000,
            0 <= v <= 0x8000_0000,
            v == whole_part(m@, k as int),
        decreases point - k,
    {
        v = v * 10 + read_digit(m, k);
        if v > 0x8000_0000 {
            v = 0x8000_0000;
        }
        k += 1;
    }
    v
}

fn count_bits(n: i64) -> (r: u8)
    requires
        0 <= n < 0x8000_0000,
    ensures
        r == bit_count(n as int),
        r <= 31,
{
    let mut v: i64 = n;
    let mut r: u8 = 0;
    let mut limit: i64 = 0x8000_0000;
    while v > 0
        invariant
            0 <= v < limit,
            limit <= 0x8000_0000,
            r <= 31,
            bit_count(n as int) == r + bit_count(v as int),
            r == 0 ==> limit == 0x8000_0000,
            r == 1 ==> limit == 0x4000_0000,
            r == 2 ==> limit == 0x2000_0000,
            r == 3 ==> limit == 0x1000_0000,
            r == 4 ==> limit == 0x800_0000,
            r == 5 ==> limit == 0x400_0000,
            r == 6 ==> limit == 0x200_0000,
            r == 7 ==> limit == 0x100_0000,
            r == 8 ==> limit == 0x80_0000,
            r == 9 ==> limit == 0x40_0000,
            r == 10 ==> limit == 0x20_0000,
            r == 11 ==> limit == 0x10_0000,
            r == 12 ==> limit == 0x8_0000,
            r == 13 ==> limit == 0x4_0000,
            r == 14 ==> limit == 0x2_0000,
            r == 15 ==> limit == 0x1_0000,
            r == 16 ==> limit == 0x8000,
            r == 17 ==> limit == 0x4000,
            r == 18 ==> limit == 0x2000,
            r == 19 ==> limit == 0x1000,
            r == 20 ==> limit == 0x800,
            r == 21 ==> limit == 0x400,
            r == 22 ==> limit == 0x200,
            r == 23 ==> limit == 0x100,
            r == 24 ==> limit == 0x80,
            r == 25 ==> limit == 0x40,
            r == 26 ==> limit == 0x20,
            r == 27 ==> limit == 0x10,
            r == 28 ==> limit == 8,
            r == 29 ==> limit == 4,
            r == 30 ==> limit == 2,
            r == 31 ==> limit == 1,
        decreases v,
    {
        v = v / 2;
        limit = limit / 2;
        r += 1;
    }
    r
}

proof fn five_bounds(n: nat)
    requires
        n <= 54,
    ensures
        1 <= five_to(n) <= 55511151231257827021181583404541015625,
{
    five_grows(n, 54);
    reveal_with_fuel(five_to, 55);
}

proof fn five_grows(a: nat, b: nat)
    requires
        a <= b,
    ensures
        1 <= five_to(a) <= five_to(b),
    decreases b,
{
    if b > 0 {
        if a < b {
            five_grows(a, (b - 1) as nat);
        } else {
            five_grows((b - 1) as nat, (b - 1) as nat);
        }
    }
}

fn five_power(n: u8) -> (r: u128)
    requires
        n <= 54,
    ensures
        r == five_to(n as nat),
        r <= 55511151231257827021181583404541015625,
{
    let mut i: u8 = 0;
    let mut r: u128 = 1;
    proof {
        five_bounds(0);
    }
    while i < n
        invariant
            i <= n <= 54,
            r == five_to(i as nat),
            r <= 55511151231257827021181583404541015625,
        decreases n - i,
    {
        proof {
            five_bounds((i + 1) as nat);
        }
        r = r * 5;
        i += 1;
    }
    r
}

proof fn lack_grows(m: Seq<u8>, point: int, a: int, b: int)
    requires
        all_digits(m),
        a <= b,
    ensures
        0 <= lack(m, point, a) <= lack(m, point, b),
    decreases b,
{
    if b > 0 {
        if a < b {
            lack_grows(m, point, a, b - 1);
        } else {
            lack_grows(m, point, b - 1, b - 1);
        }
    }
}

fn does_round_up(m: &Vec<u8>, point: i64, n: i64) -> (r: bool)
    requires
        all_digits(m@),
        -2000 <= point <= 2000,
        0 <= n < 0x8000_0000,
    ensures
        r == rounds_up(m@, point as int, n as int),
{
    let places: u8 = 54 - count_bits(n);
    let limit: u128 = five_power(places);
    let mut c: u128 = 0;
    let mut j: u8 = 0;
    while j < places
        invariant
            j <= places <= 54,
            all_digits(m@),
            -2000 <= point <= 2000,
            limit == five_to(places as nat),
            limit <= 55511151231257827021181583404541015625,
            c == lack(m@, point as int, j as int),
            c <= limit + 9,
            places == 54 - bit_count(n as int),
        decreases places - j,
    {
        if c > limit / 10 {
            proof {
                lack_grows(m@, point as int, j + 1, places as int);
            }
            return false;
        }
        c = c * 10 + (9 - read_digit(m, point + j as i64)) as u128;
        j += 1;
    }
    c < limit
}

/// Reads the number that half bytes write, without what is behind its point.
pub(crate) fn read_real(data: &[u8], from: usize, end: usize) -> (r: Option<i64>)
    requires
        from <= end <= data@.len(),
    ensures
        match (real_at(data@, from as int, end as int), r) {
            (Some(v), Some(w)) => v == w,
            (None, None) => true,
            _ => false,
        },
{
    let t = match read_text(data, from, end) {
        None => {
            return None;
        },
        Some(t) => t,
    };
    match read_written(t.as_slice()) {
        None => None,
        Some((negative, digits, point)) => {
            let n: i64 = read_whole(&digits, point);
            let v: i64 = if n < 0x8000_0000 && does_round_up(&digits, point, n) {
                n + 1
            } else {
                n
            };
            let held: i64 = if v > 0x7FFF_FFFF {
                0x7FFF_FFFF
            } else {
                v
            };
            if negative {
                Some(-held)
            } else {
                Some(held)
            }
        },
    }
}

} // verus!
