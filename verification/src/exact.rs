//! What sums, products and comparisons of decimals mean as numbers.
use vstd::prelude::*;
use crate::arith::{below, below_at, cut, held, more_places, pow10, pow10_adds, product, sum, value_bound, value_split};
use crate::decimal::{all_digits, decimal_value, digits_value, is_digit, padded, padded_value};
use crate::number::{increment, increment_digits, real_of, real_of_int, scaled, strip_back, strip_front, strip_front_value, zeros, RealModel};

verus! {

proof fn strip_back_value(s: Seq<u8>)
    ensures
        strip_back(s).len() <= s.len(),
        digits_value(s) == digits_value(strip_back(s)) * pow10((s.len() - strip_back(s).len()) as nat),
    decreases s.len(),
{
    if s.len() > 0 && s.last() == 48 {
        strip_back_value(s.drop_last());
        let t = strip_back(s);
        let k = (s.len() - t.len()) as nat;
        let v = digits_value(t);
        let p = pow10((k - 1) as nat);
        assert(v * p * 10 == v * (10 * p)) by (nonlinear_arith);
    } else {
        let v = digits_value(s);
        assert(v * pow10(0) == v) by (nonlinear_arith)
            requires
                pow10(0) == 1,
        ;
    }
}

proof fn signed_times(n: int, negative: bool, m: int)
    ensures
        (if negative {
            -n
        } else {
            n
        }) * m == if negative {
            -(n * m)
        } else {
            n * m
        },
{
    assert((-n) * m == -(n * m)) by (nonlinear_arith);
}

proof fn times_regroup(a: int, b: int, c: int)
    ensures
        (a * b) * c == a * (b * c),
{
    assert((a * b) * c == a * (b * c)) by (nonlinear_arith);
}

/// Digits with a point between them, as a number.
pub proof fn real_value(negative: bool, whole: Seq<u8>, frac: Seq<u8>, q: nat)
    requires
        q >= frac.len(),
    ensures
        real_of(negative, whole, frac).places() <= frac.len(),
        real_of(negative, whole, frac).at_places(q) == if negative {
            -(digits_value(whole + frac) * pow10((q - frac.len()) as nat))
        } else {
            (digits_value(whole + frac) * pow10((q - frac.len()) as nat)) as int
        },
{
    let w = strip_front(whole);
    let f = strip_back(frac);
    strip_front_value(whole);
    strip_back_value(frac);
    value_split(whole + frac, whole.len() as int);
    assert((whole + frac).take(whole.len() as int) =~= whole);
    assert((whole + frac).skip(whole.len() as int) =~= frac);
    value_split(w + f, w.len() as int);
    assert((w + f).take(w.len() as int) =~= w);
    assert((w + f).skip(w.len() as int) =~= f);
    let k = (frac.len() - f.len()) as nat;
    pow10_adds(f.len(), k);
    assert(f.len() + k == frac.len());
    let v = digits_value(whole) as int;
    let u = digits_value(f) as int;
    let a = pow10(f.len()) as int;
    let b = pow10(k) as int;
    assert(v * (a * b) + u * b == (v * a + u) * b) by (nonlinear_arith);
    assert(digits_value(whole + frac) == digits_value(w + f) * pow10(k));
    let rest = (q - frac.len()) as nat;
    pow10_adds(k, rest);
    assert(k + rest == (q - f.len()) as nat);
    let n = digits_value(w + f) as int;
    times_regroup(n, pow10(k) as int, pow10(rest) as int);
    signed_times(n, negative, pow10((q - f.len()) as nat) as int);
}

/// A whole number with its point moved to the left is that number with as many digits behind the
/// point.
pub proof fn scaled_value(n: int, p: nat, q: nat)
    requires
        q >= p,
    ensures
        scaled(n, p).places() <= p,
        scaled(n, p).at_places(q) == n * pow10((q - p) as nat),
{
    let m = if n < 0 {
        (-n) as nat
    } else {
        n as nat
    };
    padded_value(m, p);
    let d = padded(m, p);
    let whole = d.take(d.len() - p);
    let frac = d.skip(d.len() - p);
    assert(whole + frac =~= d);
    real_value(n < 0, whole, frac, q);
    signed_times(m as int, n < 0, pow10((q - p) as nat) as int);
}

/// A whole number is itself.
pub proof fn whole_value(n: int, q: nat)
    ensures
        real_of_int(n).places() == 0,
        real_of_int(n).at_places(q) == n * pow10(q),
{
    let m = if n < 0 {
        (-n) as nat
    } else {
        n as nat
    };
    decimal_value(m);
    let whole = crate::decimal::decimal(m);
    assert(whole + seq![] =~= whole);
    real_value(n < 0, whole, seq![], q);
    signed_times(m as int, n < 0, pow10(q) as int);
}

/// More digits behind the point make a number longer, not larger.
pub proof fn more_places_value(a: RealModel, p: nat, q: nat)
    requires
        a.places() <= p <= q,
    ensures
        a.at_places(q) == a.at_places(p) * pow10((q - p) as nat),
{
    pow10_adds((p - a.places()) as nat, (q - p) as nat);
    assert((p - a.places()) as nat + (q - p) as nat == (q - a.places()) as nat);
    times_regroup(a.unpointed(), pow10((p - a.places()) as nat) as int, pow10((q - p) as nat) as int);
}

/// The number with the other sign is as far on the other side of zero.
pub proof fn negated_value(a: RealModel, p: nat)
    ensures
        a.negated().places() == a.places(),
        a.negated().at_places(p) == -a.at_places(p),
        a.negated().negated() == a,
{
    let t = pow10((p - a.places()) as nat) as int;
    signed_times(digits_value(a.whole + a.frac) as int, a.negative, t);
    signed_times(digits_value(a.whole + a.frac) as int, !a.negative, t);
}

/// A sum is exact.
pub proof fn sums_are_exact(a: RealModel, b: RealModel, p: nat)
    requires
        p >= a.places(),
        p >= b.places(),
    ensures
        sum(a, b).places() <= p,
        sum(a, b).at_places(p) == a.at_places(p) + b.at_places(p),
{
    reveal(sum);
    let c = more_places(a, b);
    scaled_value(a.at_places(c) + b.at_places(c), c, p);
    more_places_value(a, c, p);
    more_places_value(b, c, p);
    let x = a.at_places(c);
    let y = b.at_places(c);
    let t = pow10((p - c) as nat) as int;
    assert((x + y) * t == x * t + y * t) by (nonlinear_arith);
}

/// A number with `p` digits behind its point, cut off after forty of them.
pub open spec fn at_forty(n: int, p: nat) -> int {
    if p <= 40 {
        n * pow10((40 - p) as nat)
    } else {
        cut(n, (p - 40) as nat)
    }
}

proof fn held_value(n: int, p: nat, k: nat)
    ensures
        held(n, p).places() <= 40,
        held(n, p).at_places(40 + k) == at_forty(n, p) * pow10(k),
        p <= 40 ==> held(n, p).places() <= p,
{
    if p <= 40 {
        scaled_value(n, p, 40 + k);
        pow10_adds((40 - p) as nat, k);
        assert((40 - p) as nat + k == (40 + k - p) as nat);
        times_regroup(n, pow10((40 - p) as nat) as int, pow10(k) as int);
    } else {
        scaled_value(cut(n, (p - 40) as nat), 40, 40 + k);
    }
}

proof fn cut_of_longer(n: int, k: nat, j: nat)
    ensures
        cut(n * pow10(j), k + j) == cut(n, k),
        cut(n * pow10(k), k) == n,
{
    pow10_adds(k, j);
    pow10_adds(j, k);
    pow10_adds(k, 0);
    let t = pow10(j) as int;
    let d = pow10(k) as int;
    let m = if n < 0 {
        -n
    } else {
        n
    };
    assert((m * t) / (d * t) == m / d) by {
        vstd::arithmetic::mul::lemma_mul_is_commutative(m, t);
        vstd::arithmetic::mul::lemma_mul_is_commutative(d, t);
        vstd::arithmetic::div_mod::lemma_truncate_middle(m, d, t);
        vstd::arithmetic::div_mod::lemma_div_multiples_vanish_quotient(t, m, d);
    }
    vstd::arithmetic::div_mod::lemma_div_by_multiple(m, d);
    assert((-n) * t == -(n * t)) by (nonlinear_arith);
    assert((-n) * d == -(n * d)) by (nonlinear_arith);
    assert(n < 0 <==> n * t < 0) by (nonlinear_arith)
        requires
            t > 0,
    ;
    assert(n < 0 <==> n * d < 0) by (nonlinear_arith)
        requires
            d > 0,
    ;
}

/// Zeros at the end change nothing.
proof fn at_forty_of_longer(n: int, p: nat, j: nat)
    ensures
        at_forty(n * pow10(j), p + j) == at_forty(n, p),
{
    if p + j <= 40 {
        pow10_adds(j, (40 - p - j) as nat);
        times_regroup(n, pow10(j) as int, pow10((40 - p - j) as nat) as int);
        assert(j + (40 - p - j) as nat == (40 - p) as nat);
    } else if p <= 40 {
        let k = (p + j - 40) as nat;
        pow10_adds((40 - p) as nat, k);
        assert((40 - p) as nat + k == j);
        times_regroup(n, pow10((40 - p) as nat) as int, pow10(k) as int);
        cut_of_longer(n * pow10((40 - p) as nat), k, 0);
    } else {
        cut_of_longer(n, (p - 40) as nat, j);
        assert((p - 40) as nat + j == (p + j - 40) as nat);
    }
}

/// A product depends on the two numbers alone, and is cut off after forty digits behind the point.
pub proof fn products_are_cut(a: RealModel, b: RealModel, p: nat, q: nat, k: nat)
    requires
        p >= a.places(),
        q >= b.places(),
    ensures
        product(a, b).places() <= 40,
        product(a, b).at_places(40 + k) == at_forty(a.at_places(p) * b.at_places(q), p + q) * pow10(k),
{
    reveal(product);
    let i = (p - a.places()) as nat;
    let j = (q - b.places()) as nat;
    let x = a.unpointed();
    let y = b.unpointed();
    held_value(x * y, a.places() + b.places(), k);
    at_forty_of_longer(x * y, a.places() + b.places(), i + j);
    pow10_adds(i, j);
    let s = pow10(i) as int;
    let t = pow10(j) as int;
    assert((x * s) * (y * t) == (x * y) * (s * t)) by (nonlinear_arith);
    assert(a.places() + b.places() + (i + j) == p + q);
}

/// A product of numbers with no more than forty digits behind their points together is exact.
pub proof fn products_are_exact(a: RealModel, b: RealModel, p: nat, q: nat)
    requires
        p >= a.places(),
        q >= b.places(),
        a.places() + b.places() <= 40,
    ensures
        product(a, b).places() <= a.places() + b.places(),
        product(a, b).at_places(p + q) == a.at_places(p) * b.at_places(q),
{
    reveal(product);
    let i = (p - a.places()) as nat;
    let j = (q - b.places()) as nat;
    let x = a.unpointed();
    let y = b.unpointed();
    scaled_value(x * y, a.places() + b.places(), p + q);
    pow10_adds(i, j);
    let s = pow10(i) as int;
    let t = pow10(j) as int;
    assert((x * s) * (y * t) == (x * y) * (s * t)) by (nonlinear_arith);
    assert((p + q - (a.places() + b.places())) as nat == i + j);
}

/// A number with its point moved to the left by `by` places counts as many fewer.
pub proof fn shifts_are_exact(a: RealModel, by: nat, p: nat)
    requires
        p >= a.places(),
        a.places() + by <= 40,
    ensures
        a.shifted(by).places() <= a.places() + by,
        a.shifted(by).at_places(p + by) == a.at_places(p),
{
    reveal(RealModel::shifted);
    scaled_value(a.unpointed(), a.places() + by, p + by);
    assert((p + by - (a.places() + by)) as nat == (p - a.places()) as nat);
}

/// A number is below another where it is less.
pub proof fn below_is_less(a: RealModel, b: RealModel, p: nat)
    requires
        p >= a.places(),
        p >= b.places(),
    ensures
        below(a, b) <==> a.at_places(p) < b.at_places(p),
{
    below_at(a, b, p);
}

/// The digits that a number keeps.
#[verifier::rlimit(50)]
proof fn kept_value(r: RealModel, p: int)
    requires
        r.wf(),
        0 <= p < r.frac.len(),
    ensures
        ({
            let kept = r.whole + r.frac.take(p);
            let rest = r.frac.skip(p);
            let t = pow10((r.frac.len() - p) as nat) as int;
            let half = pow10((r.frac.len() - p - 1) as nat) as int;
            let n = digits_value(rest) as int;
            &&& all_digits(kept)
            &&& digits_value(r.whole + r.frac) == digits_value(kept) * t + n
            &&& t == 10 * half
            &&& 0 < half
            &&& (r.frac[p] - 48) * half <= n < (r.frac[p] - 48 + 1) * half
            &&& n == 5 * half <==> r.frac[p] == 53 && r.frac.len() == p + 1
            &&& kept.len() > 0 ==> digits_value(kept) % 2 == kept.last() % 2
            &&& kept.len() == 0 ==> digits_value(kept) == 0
        }),
{
    let kept = r.whole + r.frac.take(p);
    let rest = r.frac.skip(p);
    let all = r.whole + r.frac;
    let k = (r.frac.len() - p) as nat;
    value_split(all, r.whole.len() + p);
    assert(all.take(r.whole.len() + p) =~= kept);
    assert(all.skip(r.whole.len() + p) =~= rest);
    assert(all.len() - (r.whole.len() + p) == k);
    value_split(rest, 1);
    let first = rest.take(1);
    let tail = rest.skip(1);
    assert(first.drop_last() =~= seq![]);
    assert(first.last() == r.frac[p]);
    reveal_with_fuel(digits_value, 2);
    assert(digits_value(first) == r.frac[p] - 48);
    assert(all_digits(tail));
    value_bound(tail);
    let half = pow10((k - 1) as nat) as int;
    pow10_adds((k - 1) as nat, 0);
    let f = r.frac[p] - 48;
    let v = digits_value(tail) as int;
    assert(digits_value(rest) == f * half + v);
    assert((f + 1) * half == f * half + half) by (nonlinear_arith);
    if tail.len() > 0 {
        assert(tail.last() == r.frac.last());
        assert(digits_value(tail) > 0);
    }
    assert(f * half + v == 5 * half <==> f == 5 && v == 0) by (nonlinear_arith)
        requires
            0 <= v < half,
            0 <= f,
    ;
    assert(tail.len() == 0 ==> v == 0);
    if kept.len() > 0 {
        assert(is_digit(kept.last()));
    }
}

/// Rounding to the nearest is off by half a unit at most.
proof fn off_by_half(n: int, m: int, f: int, half: int, t: int, rest: int, up: bool)
    requires
        half > 0,
        t == 10 * half,
        0 <= f <= 9,
        f * half <= rest < (f + 1) * half,
        m == if up {
            n + 1
        } else {
            n
        },
        up ==> f >= 5,
        !up ==> f <= 5,
        !up && f == 5 ==> rest == 5 * half,
    ensures
        -t <= 2 * (m * t - (n * t + rest)) <= t,
        2 * (m * t - (n * t + rest)) == t || 2 * (m * t - (n * t + rest)) == -t ==> rest == 5 * half,
{
    assert((n + 1) * t == n * t + t) by (nonlinear_arith);
    if up {
        assert(5 * half <= rest < 10 * half) by (nonlinear_arith)
            requires
                5 <= f <= 9,
                f * half <= rest < (f + 1) * half,
                half > 0,
        ;
    } else {
        assert(0 <= rest <= 5 * half) by (nonlinear_arith)
            requires
                0 <= f <= 5,
                f * half <= rest < (f + 1) * half,
                f == 5 ==> rest == 5 * half,
                half > 0,
        ;
    }
}

/// The value of a number that has more digits behind its point than are kept.
#[verifier::rlimit(50)]
proof fn rounded_value(r: RealModel, p: nat)
    requires
        r.wf(),
        r.places() > p,
    ensures
        ({
            let q = r.rounded(p as int);
            let n = digits_value(r.whole + r.frac.take(p as int)) as int;
            let m = if r.rounds_up(p as int) {
                n + 1
            } else {
                n
            };
            let k = r.places();
            let t = pow10((k - p) as nat) as int;
            &&& q.places() <= p
            &&& q.at_places(p) == if r.negative {
                -m
            } else {
                m
            }
            &&& q.at_places(k) == if r.negative {
                -(m * t)
            } else {
                m * t
            }
        }),
{
    let k = r.places();
    let kept = r.whole + r.frac.take(p as int);
    kept_value(r, p as int);
    increment_digits(kept);
    let digits = if r.rounds_up(p as int) {
        increment(kept)
    } else {
        kept
    };
    let whole = digits.take(digits.len() - p);
    let frac = digits.skip(digits.len() - p);
    assert(whole + frac =~= digits);
    real_value(r.negative, whole, frac, p);
    real_value(r.negative, whole, frac, k);
    assert((p - frac.len()) as nat == 0);
    assert(pow10(0) == 1);
    let m = digits_value(digits) as int;
    assert(m * pow10(0) == m) by (nonlinear_arith)
        requires
            pow10(0) == 1,
    ;
}

/// A number rounded is the nearest with as many digits behind the point; of two as near, the one
/// whose last digit is even. One with no more digits stays.
#[verifier::rlimit(50)]
pub proof fn rounding_is_to_the_nearest(r: RealModel, p: nat)
    requires
        r.wf(),
    ensures
        r.places() <= p ==> r.rounded(p as int) == r,
        r.places() > p ==> {
            let q = r.rounded(p as int);
            let k = r.places();
            let t = pow10((k - p) as nat) as int;
            let off = q.at_places(k) - r.at_places(k);
            &&& q.places() <= p
            &&& -t <= 2 * off <= t
            &&& (2 * off == t || 2 * off == -t) ==> q.at_places(p) % 2 == 0
        },
{
    if r.places() > p {
        let k = r.places();
        let kept = r.whole + r.frac.take(p as int);
        kept_value(r, p as int);
        rounded_value(r, p);
        let up = r.rounds_up(p as int);
        let t = pow10((k - p) as nat) as int;
        let half = pow10((k - p - 1) as nat) as int;
        let n = digits_value(kept) as int;
        let m = if up {
            n + 1
        } else {
            n
        };
        let rest = digits_value(r.frac.skip(p as int)) as int;
        let f = r.frac[p as int] - 48;
        assert(is_digit(r.frac[p as int]));
        assert(r.at_places(k) == r.unpointed()) by {
            assert(pow10(0) == 1);
            assert(r.unpointed() * 1 == r.unpointed());
        }
        off_by_half(n, m, f, half, t, rest, up);
        assert(rest == 5 * half ==> m % 2 == 0);
    }
}

/// Millionths are the number rounded to six digits behind the point.
#[verifier::rlimit(50)]
pub proof fn millionths_are_rounded(r: RealModel)
    requires
        r.wf(),
    ensures
        r.millionths() == r.rounded(6).at_places(6),
{
    let q = r.rounded(6);
    rounding_is_to_the_nearest(r, 6);
    let zs = zeros(6 - q.frac.len());
    let s = q.whole + q.frac;
    let all = q.whole + (q.frac + zs);
    assert(all =~= s + zs);
    value_split(all, s.len() as int);
    assert(all.take(s.len() as int) =~= s);
    assert(all.skip(s.len() as int) =~= zs);
    crate::decimal::digits_value_zeros(zs.len(), seq![]);
    assert(zs =~= Seq::new(zs.len(), |i: int| 48u8) + Seq::<u8>::empty());
    let t = pow10((6 - q.frac.len()) as nat) as int;
    signed_times(digits_value(s) as int, q.negative, t);
}

} // verus!
