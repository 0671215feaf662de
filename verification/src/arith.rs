//! Sums, products and comparisons of decimals. Sums are exact; products are cut off after forty
//! digits behind the point.
use vstd::prelude::*;
use crate::decimal::{all_digits, decimal, digits_value, digits_value_zeros, is_digit, padded, padded_value};
use crate::number::{real_of, scaled, strip_front, Real, RealModel};

verus! {

/// A power of ten.
pub open spec fn pow10(k: nat) -> nat
    decreases k,
{
    if k == 0 {
        1
    } else {
        10 * pow10((k - 1) as nat)
    }
}

impl RealModel {
    /// The number without its point.
    pub open spec fn unpointed(self) -> int {
        let n = digits_value(self.whole + self.frac) as int;
        if self.negative {
            -n
        } else {
            n
        }
    }

    /// How many digits stand behind the point.
    pub open spec fn places(self) -> nat {
        self.frac.len()
    }

    /// The number without its point, with `places` digits behind it.
    pub open spec fn at_places(self, places: nat) -> int {
        self.unpointed() * pow10((places - self.places()) as nat)
    }

    /// The number with its point moved to the left.
    #[verifier::opaque]
    pub open spec fn shifted(self, by: nat) -> RealModel {
        held(self.unpointed(), self.places() + by)
    }
}

/// `n` divided by a power of ten, towards zero.
pub open spec fn cut(n: int, k: nat) -> int {
    if n < 0 {
        -((-n) / pow10(k) as int)
    } else {
        n / pow10(k) as int
    }
}

/// The decimal `n` with the point moved to the left, cut off after forty digits.
pub open spec fn held(n: int, places: nat) -> RealModel {
    if places <= 40 {
        scaled(n, places)
    } else {
        scaled(cut(n, (places - 40) as nat), 40)
    }
}

pub open spec fn more_places(a: RealModel, b: RealModel) -> nat {
    if a.places() > b.places() {
        a.places()
    } else {
        b.places()
    }
}

#[verifier::opaque]
pub open spec fn sum(a: RealModel, b: RealModel) -> RealModel {
    let p = more_places(a, b);
    scaled(a.at_places(p) + b.at_places(p), p)
}

#[verifier::opaque]
pub open spec fn product(a: RealModel, b: RealModel) -> RealModel {
    held(a.unpointed() * b.unpointed(), a.places() + b.places())
}

/// `a` is less than `b`.
#[verifier::opaque]
pub open spec fn below(a: RealModel, b: RealModel) -> bool {
    let p = more_places(a, b);
    a.at_places(p) < b.at_places(p)
}

pub proof fn pow10_adds(a: nat, b: nat)
    ensures
        pow10(a + b) == pow10(a) * pow10(b),
        pow10(a) > 0,
    decreases a,
{
    if a > 0 {
        pow10_adds((a - 1) as nat, b);
        assert(pow10(a + b) == 10 * pow10((a - 1 + b) as nat));
        assert(10 * (pow10((a - 1) as nat) * pow10(b)) == (10 * pow10((a - 1) as nat)) * pow10(b))
            by (nonlinear_arith);
    } else {
        assert(pow10(a) * pow10(b) == pow10(b)) by (nonlinear_arith)
            requires
                pow10(a) == 1,
        ;
    }
}

proof fn pow10_grows(a: nat, b: nat)
    requires
        a <= b,
    ensures
        pow10(a) <= pow10(b),
    decreases b,
{
    if a < b {
        pow10_grows(a, (b - 1) as nat);
        pow10_adds((b - 1) as nat, 0);
    }
}

/// Digits in two parts: the first counts by the power of ten of the second's length.
pub proof fn value_split(s: Seq<u8>, i: int)
    requires
        0 <= i <= s.len(),
    ensures
        digits_value(s) == digits_value(s.take(i)) * pow10((s.len() - i) as nat) + digits_value(
            s.skip(i),
        ),
    decreases s.len() - i,
{
    if i == s.len() {
        assert(s.take(i) =~= s);
        assert(s.skip(i) =~= seq![]);
        let v = digits_value(s);
        assert(v * pow10(0) == v) by (nonlinear_arith)
            requires
                pow10(0) == 1,
        ;
    } else {
        value_split(s.drop_last(), i);
        assert(s.drop_last().take(i) =~= s.take(i));
        assert(s.skip(i).drop_last() =~= s.drop_last().skip(i));
        assert(s.skip(i).last() == s.last());
        let k = (s.len() - i) as nat;
        let a = digits_value(s.take(i));
        let p = pow10((k - 1) as nat);
        assert((a * p) * 10 == a * (10 * p)) by (nonlinear_arith);
    }
}

/// Digits write a number below the power of ten of their count.
pub proof fn value_bound(s: Seq<u8>)
    requires
        all_digits(s),
    ensures
        digits_value(s) < pow10(s.len()),
    decreases s.len(),
{
    if s.len() > 0 {
        assert(all_digits(s.drop_last()));
        value_bound(s.drop_last());
        assert(is_digit(s.last()));
    }
}

/// Zeros at the end move the point.
proof fn value_zeros_behind(s: Seq<u8>, k: nat)
    ensures
        digits_value(s + Seq::new(k, |i: int| 48u8)) == digits_value(s) * pow10(k),
    decreases k,
{
    let z = Seq::new(k, |i: int| 48u8);
    if k > 0 {
        let z1 = Seq::new((k - 1) as nat, |i: int| 48u8);
        value_zeros_behind(s, (k - 1) as nat);
        assert((s + z).drop_last() =~= s + z1);
        assert((s + z).last() == 48);
        let a = digits_value(s);
        let p = pow10((k - 1) as nat);
        assert((a * p) * 10 == a * (10 * p)) by (nonlinear_arith);
    } else {
        assert(s + z =~= s);
        let v = digits_value(s);
        assert(v * pow10(0) == v) by (nonlinear_arith)
            requires
                pow10(0) == 1,
        ;
    }
}

/// Digits of one count with one value are the same.
proof fn digits_unique(a: Seq<u8>, b: Seq<u8>)
    requires
        all_digits(a),
        all_digits(b),
        a.len() == b.len(),
        digits_value(a) == digits_value(b),
    ensures
        a == b,
    decreases a.len(),
{
    if a.len() > 0 {
        assert(is_digit(a.last()));
        assert(is_digit(b.last()));
        assert(all_digits(a.drop_last()));
        assert(all_digits(b.drop_last()));
        digits_unique(a.drop_last(), b.drop_last());
        assert(a =~= a.drop_last().push(a.last()));
        assert(b =~= b.drop_last().push(b.last()));
    } else {
        assert(a =~= b);
    }
}

proof fn strip_front_zeros(k: nat, s: Seq<u8>)
    ensures
        strip_front(Seq::new(k, |i: int| 48u8) + s) == strip_front(s),
    decreases k,
{
    let z = Seq::new(k, |i: int| 48u8);
    if k > 0 {
        let z1 = Seq::new((k - 1) as nat, |i: int| 48u8);
        assert((z + s)[0] == 48);
        assert((z + s).drop_first() =~= z1 + s);
        strip_front_zeros((k - 1) as nat, s);
    } else {
        assert(z + s =~= s);
    }
}

proof fn decimal_shortest(n: nat, s: Seq<u8>)
    requires
        all_digits(s),
        s.len() >= 1,
        digits_value(s) == n,
    ensures
        decimal(n).len() <= s.len(),
    decreases s.len(),
{
    if n >= 10 {
        assert(is_digit(s.last()));
        assert(all_digits(s.drop_last()));
        assert(n / 10 == digits_value(s.drop_last()));
        if s.len() == 1 {
            assert(s.drop_last() =~= seq![]);
        } else {
            decimal_shortest(n / 10, s.drop_last());
        }
    }
}

/// Digits with a point make the decimal of their value.
proof fn pointed_is(negative: bool, d: Seq<u8>, places: nat)
    requires
        all_digits(d),
        d.len() >= places,
        d.len() >= 1,
    ensures
        real_of(
            negative && digits_value(d) > 0,
            d.take(d.len() - places),
            d.skip(d.len() - places),
        ) == scaled(
            if negative {
                -(digits_value(d) as int)
            } else {
                digits_value(d) as int
            },
            places,
        ),
{
    let n = digits_value(d);
    let q = padded(n, places);
    padded_value(n, places);
    decimal_shortest(n, d);
    let k = (d.len() - q.len()) as nat;
    let z = Seq::new(k, |i: int| 48u8);
    digits_value_zeros(k, q);
    assert(all_digits(z + q)) by {
        assert forall|i: int| 0 <= i < (z + q).len() implies is_digit(#[trigger] (z + q)[i]) by {
            if i >= k {
                assert(is_digit(q[i - k]));
            }
        }
    }
    digits_unique(d, z + q);
    let cut = q.len() - places;
    assert(d.take(d.len() - places) =~= z + q.take(cut));
    assert(d.skip(d.len() - places) =~= q.skip(cut));
    strip_front_zeros(k, q.take(cut));
}

/// Zeros in front, up to `len` digits.
fn widened(s: &[u8], len: usize) -> (r: Vec<u8>)
    requires
        all_digits(s@),
    ensures
        all_digits(r@),
        digits_value(r@) == digits_value(s@),
        r@.len() == if s@.len() > len {
            s@.len()
        } else {
            len as nat
        },
{
    let mut r: Vec<u8> = Vec::new();
    let have: usize = s.len();
    let mut i: usize = have;
    assert(r@ =~= Seq::new(0, |j: int| 48u8));
    while i < len
        invariant
            have <= i,
            i <= len || i == have,
            r@ == Seq::new((i - have) as nat, |j: int| 48u8),
        decreases len - i,
    {
        r.push(48);
        i += 1;
        assert(r@ =~= Seq::new((i - have) as nat, |j: int| 48u8));
    }
    let ghost z = r@;
    r.extend_from_slice(s);
    proof {
        assert(r@ =~= z + s@);
        digits_value_zeros(z.len(), s@);
        assert forall|j: int| 0 <= j < r@.len() implies is_digit(#[trigger] r@[j]) by {
            if j >= z.len() {
                assert(is_digit(s@[j - z.len()]));
            }
        }
    }
    r
}

/// A digit in front.
proof fn value_front(d: u8, s: Seq<u8>)
    requires
        d >= 48,
    ensures
        digits_value(seq![d] + s) == (d - 48) * pow10(s.len()) + digits_value(s),
{
    let all = seq![d] + s;
    value_split(all, 1);
    assert(all.take(1) =~= seq![d]);
    assert(all.skip(1) =~= s);
    assert(seq![d].drop_last() =~= seq![]);
    reveal_with_fuel(digits_value, 2);
}

/// The value of one digit more.
proof fn value_next(s: Seq<u8>, i: int)
    requires
        0 <= i < s.len(),
    ensures
        digits_value(s.take(i + 1)) == digits_value(s.take(i)) * 10 + (s[i] - 48) as nat,
{
    assert(s.take(i + 1).drop_last() =~= s.take(i));
    assert(s.take(i + 1).last() == s[i]);
}

/// The sum of two numbers in digits.
fn add_digits(x: &[u8], y: &[u8]) -> (r: Vec<u8>)
    requires
        all_digits(x@),
        all_digits(y@),
    ensures
        all_digits(r@),
        digits_value(r@) == digits_value(x@) + digits_value(y@),
        r@.len() >= 1,
{
    let a = widened(x, y.len());
    let b = widened(y, x.len());
    let n: usize = a.len();
    let mut out: Vec<u8> = Vec::new();
    let mut carry: u8 = 0;
    let mut i: usize = n;
    let ghost total = digits_value(a@) + digits_value(b@);
    proof {
        assert(a@.take(n as int) =~= a@);
        assert(b@.take(n as int) =~= b@);
        assert(out@ =~= seq![]);
        assert((digits_value(a@) + digits_value(b@) + 0) * 1 + 0 == total) by (nonlinear_arith)
            requires
                total == digits_value(a@) + digits_value(b@),
        ;
    }
    while i > 0
        invariant
            0 <= i <= n,
            n == a@.len(),
            n == b@.len(),
            all_digits(a@),
            all_digits(b@),
            all_digits(out@),
            out@.len() == n - i,
            carry <= 1,
            total == (digits_value(a@.take(i as int)) + digits_value(b@.take(i as int)) + carry)
                * pow10((n - i) as nat) + digits_value(out@),
        decreases i,
    {
        let ghost before = out@;
        let ghost p = pow10((n - i) as nat);
        assert(is_digit(a@[i - 1]));
        assert(is_digit(b@[i - 1]));
        let s: u8 = (a[i - 1] - 48) + (b[i - 1] - 48) + carry;
        let d: u8 = s % 10;
        let next: u8 = s / 10;
        out.insert(0, 48 + d);
        proof {
            assert(out@ =~= seq![(48 + d) as u8] + before);
            value_front((48 + d) as u8, before);
            value_next(a@, i - 1);
            value_next(b@, i - 1);
            let u = digits_value(a@.take(i - 1)) as int;
            let v = digits_value(b@.take(i - 1)) as int;
            let da = (a@[i - 1] - 48) as int;
            let db = (b@[i - 1] - 48) as int;
            let c = carry as int;
            let w = digits_value(before) as int;
            assert((u * 10 + da + (v * 10 + db) + c) * p + w == (u + v + next) * (10 * p) + (d * p + w))
                by (nonlinear_arith)
                requires
                    da + db + c == 10 * next + d,
            ;
            assert(pow10((n - (i - 1)) as nat) == 10 * p);
            assert forall|j: int| 0 <= j < out@.len() implies is_digit(#[trigger] out@[j]) by {
                if j > 0 {
                    assert(is_digit(before[j - 1]));
                }
            }
        }
        carry = next;
        i -= 1;
    }
    let ghost before = out@;
    out.insert(0, 48 + carry);
    proof {
        assert(out@ =~= seq![(48 + carry) as u8] + before);
        value_front((48 + carry) as u8, before);
        assert(a@.take(0) =~= seq![]);
        assert(b@.take(0) =~= seq![]);
        assert forall|j: int| 0 <= j < out@.len() implies is_digit(#[trigger] out@[j]) by {
            if j > 0 {
                assert(is_digit(before[j - 1]));
            }
        }
    }
    out
}

/// The difference of two numbers in digits.
fn subtract_digits(x: &[u8], y: &[u8]) -> (r: Vec<u8>)
    requires
        all_digits(x@),
        all_digits(y@),
        digits_value(y@) <= digits_value(x@),
    ensures
        all_digits(r@),
        digits_value(r@) == digits_value(x@) - digits_value(y@),
{
    let a = widened(x, y.len());
    let b = widened(y, x.len());
    let n: usize = a.len();
    let mut out: Vec<u8> = Vec::new();
    let mut borrow: u8 = 0;
    let mut i: usize = n;
    let ghost total = digits_value(a@) - digits_value(b@);
    proof {
        assert(a@.take(n as int) =~= a@);
        assert(b@.take(n as int) =~= b@);
        assert(out@ =~= seq![]);
        assert((digits_value(a@) - digits_value(b@) - 0) * 1 + 0 == total) by (nonlinear_arith)
            requires
                total == digits_value(a@) - digits_value(b@),
        ;
    }
    while i > 0
        invariant
            0 <= i <= n,
            n == a@.len(),
            n == b@.len(),
            all_digits(a@),
            all_digits(b@),
            all_digits(out@),
            out@.len() == n - i,
            borrow <= 1,
            total == (digits_value(a@.take(i as int)) - digits_value(b@.take(i as int)) - borrow)
                * pow10((n - i) as nat) + digits_value(out@),
        decreases i,
    {
        let ghost before = out@;
        let ghost p = pow10((n - i) as nat);
        assert(is_digit(a@[i - 1]));
        assert(is_digit(b@[i - 1]));
        let s: u8 = 10 + (a[i - 1] - 48) - (b[i - 1] - 48) - borrow;
        let d: u8 = s % 10;
        let next: u8 = if s < 10 {
            1
        } else {
            0
        };
        out.insert(0, 48 + d);
        proof {
            assert(out@ =~= seq![(48 + d) as u8] + before);
            value_front((48 + d) as u8, before);
            value_next(a@, i - 1);
            value_next(b@, i - 1);
            let u = digits_value(a@.take(i - 1)) as int;
            let v = digits_value(b@.take(i - 1)) as int;
            let da = (a@[i - 1] - 48) as int;
            let db = (b@[i - 1] - 48) as int;
            let c = borrow as int;
            let w = digits_value(before) as int;
            assert((u * 10 + da - (v * 10 + db) - c) * p + w == (u - v - next) * (10 * p) + (d * p + w))
                by (nonlinear_arith)
                requires
                    da - db - c == d - 10 * next,
            ;
            assert(pow10((n - (i - 1)) as nat) == 10 * p);
            assert forall|j: int| 0 <= j < out@.len() implies is_digit(#[trigger] out@[j]) by {
                if j > 0 {
                    assert(is_digit(before[j - 1]));
                }
            }
        }
        borrow = next;
        i -= 1;
    }
    proof {
        assert(a@.take(0) =~= seq![]);
        assert(b@.take(0) =~= seq![]);
        value_bound(out@);
        let p = pow10(n as nat) as int;
        let w = digits_value(out@) as int;
        let c = borrow as int;
        if c == 1 {
            assert((0 - 0 - c) * p + w < 0) by (nonlinear_arith)
                requires
                    c == 1,
                    w < p,
            ;
        } else {
            assert((0 - 0 - c) * p + w == w) by (nonlinear_arith)
                requires
                    c == 0,
            ;
        }
    }
    out
}

/// A number in digits, times one digit.
fn times_digit(x: &[u8], m: u8) -> (r: Vec<u8>)
    requires
        all_digits(x@),
        m <= 9,
    ensures
        all_digits(r@),
        digits_value(r@) == digits_value(x@) * m,
{
    let n: usize = x.len();
    let mut out: Vec<u8> = Vec::new();
    let mut carry: u8 = 0;
    let mut i: usize = n;
    let ghost total = digits_value(x@) * m;
    proof {
        assert(x@.take(n as int) =~= x@);
        assert(out@ =~= seq![]);
        assert((digits_value(x@) * m + 0) * 1 + 0 == total) by (nonlinear_arith)
            requires
                total == digits_value(x@) * m,
        ;
    }
    while i > 0
        invariant
            0 <= i <= n,
            n == x@.len(),
            m <= 9,
            all_digits(x@),
            all_digits(out@),
            out@.len() == n - i,
            carry <= 8,
            total == (digits_value(x@.take(i as int)) * m + carry) * pow10((n - i) as nat)
                + digits_value(out@),
        decreases i,
    {
        let ghost before = out@;
        let ghost p = pow10((n - i) as nat);
        assert(is_digit(x@[i - 1]));
        let dx: u8 = x[i - 1] - 48;
        assert(dx * m <= 81) by (nonlinear_arith)
            requires
                dx <= 9,
                m <= 9,
        ;
        let s: u8 = dx * m + carry;
        let d: u8 = s % 10;
        let next: u8 = s / 10;
        out.insert(0, 48 + d);
        proof {
            assert(out@ =~= seq![(48 + d) as u8] + before);
            value_front((48 + d) as u8, before);
            value_next(x@, i - 1);
            let u = digits_value(x@.take(i - 1)) as int;
            let c = carry as int;
            let w = digits_value(before) as int;
            let prod = (dx * m) as int;
            assert((u * 10 + dx) * m == u * m * 10 + prod) by (nonlinear_arith)
                requires
                    prod == dx * m,
            ;
            let um = u * m;
            assert((um * 10 + prod + c) * p + w == (um + next) * (10 * p) + (d * p + w))
                by (nonlinear_arith)
                requires
                    prod + c == 10 * next + d,
            ;
            assert(pow10((n - (i - 1)) as nat) == 10 * p);
            assert forall|j: int| 0 <= j < out@.len() implies is_digit(#[trigger] out@[j]) by {
                if j > 0 {
                    assert(is_digit(before[j - 1]));
                }
            }
        }
        carry = next;
        i -= 1;
    }
    let ghost before = out@;
    out.insert(0, 48 + carry);
    proof {
        assert(out@ =~= seq![(48 + carry) as u8] + before);
        value_front((48 + carry) as u8, before);
        assert(x@.take(0) =~= seq![]);
        assert(0 * m == 0) by (nonlinear_arith);
        assert forall|j: int| 0 <= j < out@.len() implies is_digit(#[trigger] out@[j]) by {
            if j > 0 {
                assert(is_digit(before[j - 1]));
            }
        }
    }
    out
}

/// The product of two numbers in digits.
fn multiply_digits(x: &[u8], y: &[u8]) -> (r: Vec<u8>)
    requires
        all_digits(x@),
        all_digits(y@),
    ensures
        all_digits(r@),
        digits_value(r@) == digits_value(x@) * digits_value(y@),
        r@.len() >= 1,
{
    let mut r: Vec<u8> = Vec::new();
    r.push(48);
    proof {
        assert(r@.drop_last() =~= seq![]);
        reveal_with_fuel(digits_value, 2);
        assert(y@.take(0) =~= seq![]);
        assert(digits_value(x@) * 0 == 0) by (nonlinear_arith);
    }
    let mut j: usize = 0;
    while j < y.len()
        invariant
            0 <= j <= y@.len(),
            all_digits(x@),
            all_digits(y@),
            all_digits(r@),
            r@.len() >= 1,
            digits_value(r@) == digits_value(x@) * digits_value(y@.take(j as int)),
        decreases y@.len() - j,
    {
        let ghost before = r@;
        assert(is_digit(y@[j as int]));
        let m: u8 = y[j] - 48;
        r.push(48);
        proof {
            assert(r@.drop_last() =~= before);
            assert forall|k: int| 0 <= k < r@.len() implies is_digit(#[trigger] r@[k]) by {
                if k < before.len() {
                    assert(is_digit(before[k]));
                }
            }
        }
        let part = times_digit(x, m);
        r = add_digits(r.as_slice(), part.as_slice());
        proof {
            value_next(y@, j as int);
            let a = digits_value(x@) as int;
            let b = digits_value(y@.take(j as int)) as int;
            assert(a * b * 10 + a * m == a * (b * 10 + m)) by (nonlinear_arith);
        }
        j += 1;
    }
    assert(y@.take(j as int) =~= y@);
    r
}

/// Whether one number in digits is less than another.
fn less_digits(x: &[u8], y: &[u8]) -> (r: bool)
    requires
        all_digits(x@),
        all_digits(y@),
    ensures
        r == (digits_value(x@) < digits_value(y@)),
{
    let a = widened(x, y.len());
    let b = widened(y, x.len());
    let n: usize = a.len();
    let mut i: usize = 0;
    while i < n
        invariant
            0 <= i <= n,
            n == a@.len(),
            n == b@.len(),
            all_digits(a@),
            all_digits(b@),
            a@.take(i as int) == b@.take(i as int),
            digits_value(a@) == digits_value(x@),
            digits_value(b@) == digits_value(y@),
        decreases n - i,
    {
        if a[i] != b[i] {
            proof {
                if a@[i as int] < b@[i as int] {
                    first_difference(a@, b@, i as int);
                } else {
                    first_difference(b@, a@, i as int);
                }
            }
            return a[i] < b[i];
        }
        proof {
            assert(a@.take(i + 1) =~= a@.take(i as int).push(a@[i as int]));
            assert(b@.take(i + 1) =~= b@.take(i as int).push(b@[i as int]));
        }
        i += 1;
    }
    proof {
        assert(a@.take(n as int) =~= a@);
        assert(b@.take(n as int) =~= b@);
    }
    false
}

proof fn first_difference(a: Seq<u8>, b: Seq<u8>, i: int)
    requires
        all_digits(a),
        all_digits(b),
        a.len() == b.len(),
        0 <= i < a.len(),
        a.take(i) == b.take(i),
        a[i] < b[i],
    ensures
        digits_value(a) < digits_value(b),
{
    value_split(a, i + 1);
    value_split(b, i + 1);
    value_next(a, i);
    value_next(b, i);
    assert(is_digit(a[i]));
    assert(is_digit(b[i]));
    let p = pow10((a.len() - (i + 1)) as nat) as int;
    let u = digits_value(a.take(i + 1)) as int;
    let v = digits_value(b.take(i + 1)) as int;
    assert(all_digits(a.skip(i + 1)));
    value_bound(a.skip(i + 1));
    assert(u + 1 <= v);
    assert(u * p + p <= v * p) by (nonlinear_arith)
        requires
            u + 1 <= v,
            p >= 0,
    ;
}

/// The quotient of two numbers in digits, without the rest.
fn divide_digits(x: &[u8], y: &[u8]) -> (r: Vec<u8>)
    requires
        all_digits(x@),
        all_digits(y@),
        digits_value(y@) > 0,
    ensures
        all_digits(r@),
        digits_value(r@) == digits_value(x@) / digits_value(y@),
{
    let mut out: Vec<u8> = Vec::new();
    let mut rest: Vec<u8> = Vec::new();
    let ghost m = digits_value(y@) as int;
    proof {
        assert(out@ =~= seq![]);
        assert(rest@ =~= seq![]);
        assert(x@.take(0) =~= seq![]);
        assert(0 * m == 0) by (nonlinear_arith);
    }
    let mut i: usize = 0;
    while i < x.len()
        invariant
            0 <= i <= x@.len(),
            all_digits(x@),
            all_digits(y@),
            all_digits(out@),
            all_digits(rest@),
            m == digits_value(y@),
            digits_value(rest@) < m,
            digits_value(x@.take(i as int)) == digits_value(out@) * m + digits_value(rest@),
        decreases x@.len() - i,
    {
        let ghost before = rest@;
        let ghost quotient = out@;
        assert(is_digit(x@[i as int]));
        rest.push(x[i]);
        proof {
            assert(rest@.drop_last() =~= before);
            value_next(x@, i as int);
            assert forall|j: int| 0 <= j < rest@.len() implies is_digit(#[trigger] rest@[j]) by {
                if j < before.len() {
                    assert(is_digit(before[j]));
                }
            }
        }
        let ghost all = digits_value(rest@) as int;
        let mut k: u8 = 0;
        assert(0 * m == 0) by (nonlinear_arith);
        while !less_digits(rest.as_slice(), y)
            invariant
                k <= 9,
                all_digits(rest@),
                all_digits(y@),
                m == digits_value(y@),
                m > 0,
                all == k * m + digits_value(rest@),
                all < 10 * m,
            decreases digits_value(rest@),
        {
            let ghost now = digits_value(rest@) as int;
            rest = subtract_digits(rest.as_slice(), y);
            proof {
                assert(k * m + m == (k + 1) * m) by (nonlinear_arith);
                assert(k + 1 <= 9) by (nonlinear_arith)
                    requires
                        (k + 1) * m <= all,
                        all < 10 * m,
                        m > 0,
                ;
            }
            k += 1;
        }
        out.push(48 + k);
        proof {
            assert(out@.drop_last() =~= quotient);
            let q = digits_value(quotient) as int;
            assert((q * m) * 10 + k * m == (q * 10 + k) * m) by (nonlinear_arith);
            assert forall|j: int| 0 <= j < out@.len() implies is_digit(#[trigger] out@[j]) by {
                if j < quotient.len() {
                    assert(is_digit(quotient[j]));
                }
            }
        }
        i += 1;
    }
    proof {
        assert(x@.take(i as int) =~= x@);
        let v = digits_value(x@) as int;
        let q = digits_value(out@) as int;
        let w = digits_value(rest@) as int;
        assert(v / m == q) by (nonlinear_arith)
            requires
                v == q * m + w,
                0 <= w < m,
        ;
    }
    out
}

/// The quotient of two numbers with twelve digits behind the point, cut off; there is none where
/// the second is zero.
#[verifier::opaque]
pub open spec fn quotient(a: RealModel, b: RealModel) -> Option<RealModel> {
    let p = more_places(a, b);
    let n = a.at_places(p) * pow10(12);
    let m = b.at_places(p);
    if m == 0 {
        None
    } else {
        let up = if n < 0 {
            -n
        } else {
            n
        };
        let down = if m < 0 {
            -m
        } else {
            m
        };
        Some(
            scaled(
                if (n < 0) == (m < 0) {
                    up / down
                } else {
                    -(up / down)
                },
                12,
            ),
        )
    }
}

impl Real {
    /// The quotient of two numbers with twelve digits behind the point.
    pub fn over(&self, other: &Real) -> (r: Option<Real>)
        ensures
            match r {
                Some(q) => quotient(self@, other@) == Some(q@),
                None => quotient(self@, other@) is None,
            },
    {
        proof {
            reveal(quotient);
        }
        let p: usize = if self.place_count() > other.place_count() {
            self.place_count()
        } else {
            other.place_count()
        };
        let mut a = self.magnitude(p);
        let b = other.magnitude(p);
        let none: [u8; 0] = [];
        assert(none@ =~= seq![]);
        if !less_digits(none.as_slice(), b.as_slice()) {
            return None;
        }
        let ghost plain = a@;
        let mut i: usize = 0;
        assert(a@ =~= plain + Seq::new(0, |j: int| 48u8));
        while i < 12
            invariant
                0 <= i <= 12,
                all_digits(a@),
                a@ == plain + Seq::new(i as nat, |j: int| 48u8),
            decreases 12 - i,
        {
            a.push(48);
            i += 1;
            assert(a@ =~= plain + Seq::new(i as nat, |j: int| 48u8));
        }
        proof {
            value_zeros_behind(plain, 12);
            let v = digits_value(plain) as int;
            let w = digits_value(a@) as int;
            let t = pow10(12) as int;
            pow10_adds(12, 0);
            assert((-v) * t == -(v * t)) by (nonlinear_arith);
            if w == 0 {
                let m = digits_value(b@) as int;
                assert(0int / m == 0) by (nonlinear_arith)
                    requires
                        m > 0,
                ;
            }
        }
        let q = divide_digits(a.as_slice(), b.as_slice());
        Some(
            Real::from_magnitude(self.is_negative() != other.is_negative(), q.as_slice(), 12),
        )
    }

    /// The decimal of digits with a point `places` before their end.
    fn from_magnitude(negative: bool, digits: &[u8], places: usize) -> (r: Real)
        requires
            all_digits(digits@),
        ensures
            r@ == scaled(
                if negative {
                    -(digits_value(digits@) as int)
                } else {
                    digits_value(digits@) as int
                },
                places as nat,
            ),
    {
        let least: usize = if places > 0 {
            places
        } else {
            1
        };
        let d = widened(digits, least);
        let cut: usize = d.len() - places;
        let none: [u8; 0] = [];
        assert(none@ =~= seq![]);
        let positive = less_digits(none.as_slice(), d.as_slice());
        let whole = vstd::slice::slice_subrange(d.as_slice(), 0, cut);
        let frac = vstd::slice::slice_subrange(d.as_slice(), cut, d.len());
        proof {
            assert(whole@ =~= d@.take(cut as int));
            assert(frac@ =~= d@.skip(cut as int));
            assert(all_digits(whole@));
            assert(all_digits(frac@));
            pointed_is(negative, d@, places as nat);
        }
        Real::from_digits(negative && positive, whole, frac)
    }

    /// The decimal of digits with a point `places` before their end, cut off after forty digits.
    fn held_magnitude(negative: bool, digits: &[u8], places: u128) -> (r: Real)
        requires
            all_digits(digits@),
        ensures
            r@ == held(
                if negative {
                    -(digits_value(digits@) as int)
                } else {
                    digits_value(digits@) as int
                },
                places as nat,
            ),
    {
        if places <= 40 {
            return Real::from_magnitude(negative, digits, places as usize);
        }
        let gone: u128 = places - 40;
        let n: usize = digits.len();
        let keep: usize = if gone >= n as u128 {
            0
        } else {
            n - gone as usize
        };
        let kept = vstd::slice::slice_subrange(digits, 0, keep);
        proof {
            let v = digits_value(digits@) as int;
            let p = pow10(gone as nat) as int;
            assert(kept@ =~= digits@.take(keep as int));
            assert(all_digits(kept@));
            pow10_adds(gone as nat, 0);
            if keep == 0 {
                value_bound(digits@);
                pow10_grows(n as nat, gone as nat);
                assert(kept@ =~= seq![]);
                assert(v / p == 0) by (nonlinear_arith)
                    requires
                        0 <= v < p,
                ;
            } else {
                value_split(digits@, keep as int);
                let rest = digits@.skip(keep as int);
                assert(all_digits(rest));
                value_bound(rest);
                let a = digits_value(kept@) as int;
                let b = digits_value(rest) as int;
                assert(v / p == a) by (nonlinear_arith)
                    requires
                        v == a * p + b,
                        0 <= b < p,
                ;
            }
            if v == 0 {
                assert(0int / p == 0) by (nonlinear_arith)
                    requires
                        p > 0,
                ;
            }
        }
        Real::from_magnitude(negative, kept, 40)
    }

    /// The digits of the number without its point, with zeros behind up to `places` digits behind
    /// the point.
    fn magnitude(&self, places: usize) -> (r: Vec<u8>)
        requires
            self@.places() <= places,
        ensures
            all_digits(r@),
            self@.at_places(places as nat) == if self@.negative {
                -(digits_value(r@) as int)
            } else {
                digits_value(r@) as int
            },
    {
        let mut r = self.unpointed_digits();
        let ghost plain = r@;
        let mut i: usize = self.place_count();
        let have: usize = i;
        assert(r@ =~= plain + Seq::new(0, |j: int| 48u8));
        while i < places
            invariant
                have <= i <= places,
                all_digits(r@),
                r@ == plain + Seq::new((i - have) as nat, |j: int| 48u8),
            decreases places - i,
        {
            r.push(48);
            i += 1;
            assert(r@ =~= plain + Seq::new((i - have) as nat, |j: int| 48u8));
        }
        proof {
            let k = (places - have) as nat;
            value_zeros_behind(plain, k);
            let n = digits_value(plain) as int;
            assert((-n) * pow10(k) == -(n * pow10(k))) by (nonlinear_arith);
        }
        r
    }

    /// The sum of two numbers.
    pub fn plus(&self, other: &Real) -> (r: Real)
        ensures
            r@ == sum(self@, other@),
    {
        proof {
            reveal(sum);
        }
        let p: usize = if self.place_count() > other.place_count() {
            self.place_count()
        } else {
            other.place_count()
        };
        let a = self.magnitude(p);
        let b = other.magnitude(p);
        if self.is_negative() == other.is_negative() {
            let s = add_digits(a.as_slice(), b.as_slice());
            Real::from_magnitude(self.is_negative(), s.as_slice(), p)
        } else if less_digits(a.as_slice(), b.as_slice()) {
            let s = subtract_digits(b.as_slice(), a.as_slice());
            Real::from_magnitude(other.is_negative(), s.as_slice(), p)
        } else {
            let s = subtract_digits(a.as_slice(), b.as_slice());
            Real::from_magnitude(self.is_negative(), s.as_slice(), p)
        }
    }

    /// The product of two numbers.
    pub fn times(&self, other: &Real) -> (r: Real)
        ensures
            r@ == product(self@, other@),
    {
        proof {
            reveal(product);
        }
        let a = self.unpointed_digits();
        let b = other.unpointed_digits();
        let s = multiply_digits(a.as_slice(), b.as_slice());
        let negative = self.is_negative() != other.is_negative();
        proof {
            let m = digits_value(a@) as int;
            let n = digits_value(b@) as int;
            assert((-m) * n == -(m * n)) by (nonlinear_arith);
            assert(m * (-n) == -(m * n)) by (nonlinear_arith);
            assert((-m) * (-n) == m * n) by (nonlinear_arith);
        }
        let places: u128 = self.place_count() as u128 + other.place_count() as u128;
        Real::held_magnitude(negative, s.as_slice(), places)
    }

    /// Whether this number is less than another.
    pub fn is_below(&self, other: &Real) -> (r: bool)
        ensures
            r == below(self@, other@),
    {
        proof {
            reveal(below);
        }
        let p: usize = if self.place_count() > other.place_count() {
            self.place_count()
        } else {
            other.place_count()
        };
        let a = self.magnitude(p);
        let b = other.magnitude(p);
        let none: [u8; 0] = [];
        assert(none@ =~= seq![]);
        if self.is_negative() {
            if other.is_negative() {
                less_digits(b.as_slice(), a.as_slice())
            } else {
                less_digits(none.as_slice(), a.as_slice()) || less_digits(
                    none.as_slice(),
                    b.as_slice(),
                )
            }
        } else if other.is_negative() {
            false
        } else {
            less_digits(a.as_slice(), b.as_slice())
        }
    }

    /// The number with its point moved to the left.
    pub fn moved(&self, by: usize) -> (r: Real)
        ensures
            r@ == self@.shifted(by as nat),
    {
        proof {
            reveal(RealModel::shifted);
        }
        let d = self.unpointed_digits();
        Real::held_magnitude(
            self.is_negative(),
            d.as_slice(),
            self.place_count() as u128 + by as u128,
        )
    }
}

/// A comparison may be made with any number of digits behind the point that is enough for both.
pub proof fn below_at(a: RealModel, b: RealModel, p: nat)
    requires
        p >= a.places(),
        p >= b.places(),
    ensures
        below(a, b) == (a.at_places(p) < b.at_places(p)),
{
    reveal(below);
    let c = more_places(a, b);
    let k = (p - c) as nat;
    pow10_adds((c - a.places()) as nat, k);
    pow10_adds((c - b.places()) as nat, k);
    let x = a.at_places(c);
    let y = b.at_places(c);
    let t = pow10(k) as int;
    pow10_adds(k, 0);
    assert(a.at_places(p) == x * t) by {
        let u = a.unpointed();
        let v = pow10((c - a.places()) as nat) as int;
        assert((c - a.places()) as nat + k == (p - a.places()) as nat);
        assert(u * (v * t) == (u * v) * t) by (nonlinear_arith);
    }
    assert(b.at_places(p) == y * t) by {
        let u = b.unpointed();
        let v = pow10((c - b.places()) as nat) as int;
        assert((c - b.places()) as nat + k == (p - b.places()) as nat);
        assert(u * (v * t) == (u * v) * t) by (nonlinear_arith);
    }
    assert(x < y <==> x * t < y * t) by (nonlinear_arith)
        requires
            t > 0,
    ;
}

/// What is not above a number that is not above a third is not above the third.
pub proof fn not_above_transitive(a: RealModel, b: RealModel, c: RealModel)
    requires
        !below(b, a),
        !below(c, b),
    ensures
        !below(c, a),
{
    let p = a.places() + b.places() + c.places();
    below_at(b, a, p);
    below_at(c, b, p);
    below_at(c, a, p);
}

/// A number is not below itself, and of two numbers one is not below the other.
pub proof fn below_is_strict(a: RealModel, b: RealModel)
    ensures
        !below(a, a),
        !(below(a, b) && below(b, a)),
{
    reveal(below);
}

} // verus!
