//! Real numbers as they are written: exact decimals of any length.
use vstd::prelude::*;
use crate::decimal::{all_digits, decimal, decimal_is_digits, digits_value, digits_value_zeros, is_digit, padded, padded_value, parse_digits, push_decimal, push_wide};

verus! {

/// A decimal: a sign, the digits before the point and the digits after it.
#[verifier::ext_equal]
pub ghost struct RealModel {
    pub negative: bool,
    pub whole: Seq<u8>,
    pub frac: Seq<u8>,
}

/// `s` without the zeros at its front.
pub open spec fn strip_front(s: Seq<u8>) -> Seq<u8>
    decreases s.len(),
{
    if s.len() > 0 && s[0] == 48 {
        strip_front(s.drop_first())
    } else {
        s
    }
}

/// `s` without the zeros at its end.
pub open spec fn strip_back(s: Seq<u8>) -> Seq<u8>
    decreases s.len(),
{
    if s.len() > 0 && s.last() == 48 {
        strip_back(s.drop_last())
    } else {
        s
    }
}

/// The decimal with these digits, zeros that say nothing left out.
pub open spec fn real_of(negative: bool, whole: Seq<u8>, frac: Seq<u8>) -> RealModel {
    RealModel { negative, whole: strip_front(whole), frac: strip_back(frac) }
}

/// The next number in digits.
pub open spec fn increment(s: Seq<u8>) -> Seq<u8>
    decreases s.len(),
{
    if s.len() == 0 {
        seq![49u8]
    } else if s.last() == 57 {
        increment(s.drop_last()).push(48)
    } else {
        s.drop_last().push((s.last() + 1) as u8)
    }
}

impl RealModel {
    /// Only digits, and no zero that says nothing.
    pub open spec fn wf(self) -> bool {
        &&& all_digits(self.whole)
        &&& all_digits(self.frac)
        &&& self.whole.len() > 0 ==> self.whole[0] != 48
        &&& self.frac.len() > 0 ==> self.frac.last() != 48
    }

    /// Whether the digits from the `places`-th on round up (to the nearest, a tie to the even
    /// digit).
    pub open spec fn rounds_up(self, places: int) -> bool {
        let kept = self.whole + self.frac.take(places);
        ||| self.frac[places] > 53
        ||| self.frac[places] == 53 && (self.frac.len() > places + 1 || (kept.len() > 0
            && kept.last() % 2 == 1))
    }

    /// The nearest decimal with at most `places` digits after the point.
    pub open spec fn rounded(self, places: int) -> RealModel {
        if self.frac.len() <= places {
            self
        } else {
            let kept = self.whole + self.frac.take(places);
            let digits = if self.rounds_up(places) {
                increment(kept)
            } else {
                kept
            };
            real_of(
                self.negative,
                digits.take(digits.len() - places),
                digits.skip(digits.len() - places),
            )
        }
    }

    /// The decimal as it is written, with at most six digits after the point.
    pub open spec fn text(self) -> Seq<u8> {
        let q = self.rounded(6);
        let sign = if q.negative {
            seq![45u8]
        } else {
            seq![]
        };
        let whole = if q.whole.len() == 0 {
            seq![48u8]
        } else {
            q.whole
        };
        if q.frac.len() == 0 {
            sign + whole
        } else {
            sign + whole + seq![46u8] + q.frac
        }
    }

    /// The whole part with its sign.
    pub open spec fn truncated(self) -> int {
        if self.negative {
            -(digits_value(self.whole) as int)
        } else {
            digits_value(self.whole) as int
        }
    }
}

/// `n` held to the range of `i64`.
pub open spec fn saturate_i64(n: int) -> i64 {
    if n > i64::MAX {
        i64::MAX
    } else if n < i64::MIN {
        i64::MIN
    } else {
        n as i64
    }
}

/// The decimal of a whole number.
pub open spec fn real_of_int(n: int) -> RealModel {
    real_of(
        n < 0,
        decimal(
            if n < 0 {
                (-n) as nat
            } else {
                n as nat
            },
        ),
        seq![],
    )
}

/// `count` zeros.
pub open spec fn zeros(count: int) -> Seq<u8> {
    Seq::new(
        if count > 0 {
            count as nat
        } else {
            0
        },
        |i: int| 48u8,
    )
}

/// The decimal `n` with the point moved `places` to the left.
pub open spec fn scaled(n: int, places: nat) -> RealModel {
    let digits = padded(
        if n < 0 {
            (-n) as nat
        } else {
            n as nat
        },
        places,
    );
    real_of(n < 0, digits.take(digits.len() - places), digits.skip(digits.len() - places))
}

impl RealModel {
    /// The decimal as it is written with exactly `places` digits after the point.
    pub open spec fn fixed(self, places: int) -> Seq<u8> {
        let q = self.rounded(places);
        let sign = if q.negative {
            seq![45u8]
        } else {
            seq![]
        };
        let whole = if q.whole.len() == 0 {
            seq![48u8]
        } else {
            q.whole
        };
        sign + whole + seq![46u8] + q.frac + zeros(places - q.frac.len())
    }

    /// The nearest number of millionths.
    pub open spec fn millionths(self) -> int {
        let q = self.rounded(6);
        let n = digits_value(q.whole + (q.frac + zeros(6 - q.frac.len()))) as int;
        if q.negative {
            -n
        } else {
            n
        }
    }
}

/// An exact decimal number.
#[derive(Debug, PartialEq, Eq)]
pub struct Real {
    negative: bool,
    whole: Vec<u8>,
    frac: Vec<u8>,
}

impl View for Real {
    type V = RealModel;

    closed spec fn view(&self) -> RealModel {
        RealModel { negative: self.negative, whole: self.whole@, frac: self.frac@ }
    }
}

pub proof fn increment_digits(s: Seq<u8>)
    requires
        all_digits(s),
    ensures
        all_digits(increment(s)),
        digits_value(increment(s)) == digits_value(s) + 1,
        increment(s).len() >= s.len(),
        increment(s).len() >= 1,
    decreases s.len(),
{
    if s.len() == 0 {
        assert(increment(s).drop_last() =~= seq![]);
        reveal_with_fuel(digits_value, 2);
    } else if s.last() == 57 {
        increment_digits(s.drop_last());
        assert(increment(s).drop_last() =~= increment(s.drop_last()));
    } else {
        assert(is_digit(s.last()));
        assert(increment(s).drop_last() =~= s.drop_last());
    }
}

pub proof fn strip_front_digits(s: Seq<u8>)
    ensures
        all_digits(s) ==> all_digits(strip_front(s)),
        strip_front(s).len() > 0 ==> strip_front(s)[0] != 48,
        strip_front(s).len() <= s.len(),
        strip_front(s) == s.skip(s.len() - strip_front(s).len()),
    decreases s.len(),
{
    if s.len() > 0 && s[0] == 48 {
        strip_front_digits(s.drop_first());
        let t = strip_front(s);
        assert(s.drop_first().skip(s.drop_first().len() - t.len()) =~= s.skip(s.len() - t.len()));
    } else {
        assert(s =~= s.skip(0));
    }
}

pub proof fn strip_back_digits(s: Seq<u8>)
    ensures
        all_digits(s) ==> all_digits(strip_back(s)),
        strip_back(s).len() > 0 ==> strip_back(s).last() != 48,
        strip_back(s).len() <= s.len(),
        strip_back(s) == s.take(strip_back(s).len() as int),
    decreases s.len(),
{
    if s.len() > 0 && s.last() == 48 {
        strip_back_digits(s.drop_last());
        let t = strip_back(s);
        assert(s.drop_last().take(t.len() as int) =~= s.take(t.len() as int));
    } else {
        assert(s =~= s.take(s.len() as int));
    }
}

pub proof fn strip_front_value(s: Seq<u8>)
    ensures
        digits_value(strip_front(s)) == digits_value(s),
    decreases s.len(),
{
    if s.len() > 0 && s[0] == 48 {
        strip_front_value(s.drop_first());
        digits_value_zeros(1, s.drop_first());
        assert(s =~= Seq::new(1, |i: int| 48u8) + s.drop_first());
    }
}

/// A decimal made of digits is in its shortest form.
pub proof fn real_of_wf(negative: bool, whole: Seq<u8>, frac: Seq<u8>)
    requires
        all_digits(whole),
        all_digits(frac),
    ensures
        real_of(negative, whole, frac).wf(),
{
    strip_front_digits(whole);
    strip_back_digits(frac);
}

/// Rounding keeps the form, and leaves no more than `places` digits after the point.
pub proof fn rounded_wf(r: RealModel, places: int)
    requires
        r.wf(),
        places >= 0,
    ensures
        r.rounded(places).wf(),
        r.rounded(places).frac.len() <= places,
        r.rounded(places).rounded(places) == r.rounded(places),
{
    if r.frac.len() > places {
        let kept = r.whole + r.frac.take(places);
        increment_digits(kept);
        let digits = if r.rounds_up(places) {
            increment(kept)
        } else {
            kept
        };
        assert(all_digits(digits.take(digits.len() - places)));
        assert(all_digits(digits.skip(digits.len() - places)));
        real_of_wf(
            r.negative,
            digits.take(digits.len() - places),
            digits.skip(digits.len() - places),
        );
        strip_back_digits(digits.skip(digits.len() - places));
    }
}

impl Real {
    #[verifier::type_invariant]
    spec fn inv(self) -> bool {
        RealModel { negative: self.negative, whole: self.whole@, frac: self.frac@ }.wf()
    }

    /// The decimal with these digits before and after the point.
    pub fn from_digits(negative: bool, whole: &[u8], frac: &[u8]) -> (r: Real)
        requires
            all_digits(whole@),
            all_digits(frac@),
        ensures
            r@ == real_of(negative, whole@, frac@),
    {
        let mut start: usize = 0;
        assert(whole@.skip(0) =~= whole@);
        while start < whole.len() && whole[start] == 48
            invariant
                0 <= start <= whole@.len(),
                strip_front(whole@) == strip_front(whole@.skip(start as int)),
            decreases whole@.len() - start,
        {
            assert(whole@.skip(start as int).drop_first() =~= whole@.skip(start + 1));
            start += 1;
        }
        let mut end: usize = frac.len();
        assert(frac@.take(frac@.len() as int) =~= frac@);
        while end > 0 && frac[end - 1] == 48
            invariant
                0 <= end <= frac@.len(),
                strip_back(frac@) == strip_back(frac@.take(end as int)),
            decreases end,
        {
            assert(frac@.take(end as int).drop_last() =~= frac@.take(end - 1));
            end -= 1;
        }
        let mut w: Vec<u8> = Vec::new();
        w.extend_from_slice(vstd::slice::slice_subrange(whole, start, whole.len()));
        let mut f: Vec<u8> = Vec::new();
        f.extend_from_slice(vstd::slice::slice_subrange(frac, 0, end));
        proof {
            assert(w@ =~= whole@.skip(start as int));
            assert(f@ =~= frac@.take(end as int));
            real_of_wf(negative, whole@, frac@);
        }
        Real { negative, whole: w, frac: f }
    }

    pub fn zero() -> (r: Real)
        ensures
            r@ == real_of(false, seq![], seq![]),
    {
        let r = Real { negative: false, whole: Vec::new(), frac: Vec::new() };
        assert(r@ =~= real_of(false, seq![], seq![]));
        r
    }

    /// The decimal of a whole number.
    pub fn from_int(n: i64) -> (r: Real)
        ensures
            r@ == real_of_int(n as int),
    {
        let magnitude: u64 = if n == i64::MIN {
            9223372036854775808
        } else if n < 0 {
            (-n) as u64
        } else {
            n as u64
        };
        let mut digits: Vec<u8> = Vec::new();
        push_decimal(&mut digits, magnitude);
        assert(digits@ =~= decimal(magnitude as nat));
        proof {
            decimal_is_digits(magnitude as nat);
        }
        let none: [u8; 0] = [];
        let r = Real::from_digits(n < 0, digits.as_slice(), none.as_slice());
        assert(none@ =~= seq![]);
        r
    }

    /// The whole part, held to the range of `i64`.
    pub fn to_int(&self) -> (n: i64)
        ensures
            n == saturate_i64(self@.truncated()),
    {
        proof {
            use_type_invariant(self);
        }
        if self.negative {
            match parse_digits(self.whole.as_slice(), 9223372036854775807) {
                Some(n) => -(n as i64),
                None => i64::MIN,
            }
        } else {
            match parse_digits(self.whole.as_slice(), 9223372036854775807) {
                Some(n) => n as i64,
                None => i64::MAX,
            }
        }
    }

    /// Appends the decimal as it is written, with at most six digits after the point.
    pub fn write(&self, out: &mut Vec<u8>)
        ensures
            final(out)@ == old(out)@ + self@.text(),
    {
        let q = self.round(6);
        let ghost before = out@;
        if q.negative {
            out.push(45);
        }
        if q.whole.len() == 0 {
            out.push(48);
        } else {
            out.extend_from_slice(q.whole.as_slice());
        }
        if q.frac.len() > 0 {
            out.push(46);
            out.extend_from_slice(q.frac.as_slice());
        }
        assert(out@ =~= before + self@.text());
    }

    /// The decimal `n` with the point moved `places` to the left.
    pub fn from_scaled(n: i128, places: usize) -> (r: Real)
        requires
            n > i128::MIN,
        ensures
            r@ == scaled(n as int, places as nat),
    {
        let magnitude: u128 = if n < 0 {
            (-n) as u128
        } else {
            n as u128
        };
        let mut plain: Vec<u8> = Vec::new();
        push_wide(&mut plain, magnitude);
        assert(plain@ =~= decimal(magnitude as nat));
        let mut digits: Vec<u8> = Vec::new();
        let mut i: usize = plain.len();
        let have: usize = plain.len();
        assert(digits@ =~= Seq::new(0, |j: int| 48u8));
        while i < places
            invariant
                have <= i,
                have < places ==> i <= places,
                places <= have ==> i == have,
                digits@ == Seq::new((i - have) as nat, |j: int| 48u8),
            decreases places - i,
        {
            digits.push(48);
            i += 1;
            assert(digits@ =~= Seq::new((i - have) as nat, |j: int| 48u8));
        }
        digits.extend_from_slice(plain.as_slice());
        assert(digits@ =~= padded(magnitude as nat, places as nat));
        proof {
            padded_value(magnitude as nat, places as nat);
        }
        let cut: usize = digits.len() - places;
        let r = Real::from_digits(
            n < 0,
            vstd::slice::slice_subrange(digits.as_slice(), 0, cut),
            vstd::slice::slice_subrange(digits.as_slice(), cut, digits.len()),
        );
        proof {
            assert(digits@.subrange(0, cut as int) =~= digits@.take(cut as int));
            assert(digits@.subrange(cut as int, digits@.len() as int) =~= digits@.skip(cut as int));
        }
        r
    }

    /// Appends the decimal as it is written with exactly `places` digits after the point.
    pub fn write_fixed(&self, places: usize, out: &mut Vec<u8>)
        ensures
            final(out)@ == old(out)@ + self@.fixed(places as int),
    {
        let q = self.round(places);
        let ghost before = out@;
        proof {
            use_type_invariant(self);
            rounded_wf(self@, places as int);
        }
        if q.negative {
            out.push(45);
        }
        if q.whole.len() == 0 {
            out.push(48);
        } else {
            out.extend_from_slice(q.whole.as_slice());
        }
        out.push(46);
        out.extend_from_slice(q.frac.as_slice());
        let ghost now = out@;
        let mut i: usize = q.frac.len();
        let have: usize = q.frac.len();
        assert(out@ =~= now + zeros(0));
        while i < places
            invariant
                have <= i,
                have <= places,
                i <= places,
                out@ == now + zeros(i - have),
            decreases places - i,
        {
            out.push(48);
            i += 1;
            assert(out@ =~= now + zeros(i - have));
        }
        assert(out@ =~= before + self@.fixed(places as int));
    }

    /// The nearest number of millionths, held to the range of `i64`.
    pub fn to_millionths(&self) -> (n: i64)
        ensures
            n == saturate_i64(self@.millionths()),
    {
        let q = self.round(6);
        proof {
            use_type_invariant(self);
            rounded_wf(self@, 6);
        }
        let mut digits: Vec<u8> = Vec::new();
        digits.extend_from_slice(q.whole.as_slice());
        digits.extend_from_slice(q.frac.as_slice());
        let ghost now = digits@;
        let mut i: usize = q.frac.len();
        let have: usize = q.frac.len();
        assert(digits@ =~= now + zeros(0));
        while i < 6
            invariant
                have <= i <= 6,
                digits@ == now + zeros(i - have),
            decreases 6 - i,
        {
            digits.push(48);
            i += 1;
            assert(digits@ =~= now + zeros(i - have));
        }
        assert(digits@ =~= q.whole@ + (q.frac@ + zeros(6 - q.frac@.len())));
        assert(all_digits(digits@));
        let limit: u64 = 9223372036854775807;
        match parse_digits(digits.as_slice(), limit) {
            Some(n) => if q.negative {
                -(n as i64)
            } else {
                n as i64
            },
            None => if q.negative {
                i64::MIN
            } else {
                i64::MAX
            },
        }
    }

    /// The nearest decimal with at most `places` digits after the point.
    pub fn round(&self, places: usize) -> (r: Real)
        ensures
            r@ == self@.rounded(places as int),
    {
        proof {
            use_type_invariant(self);
        }
        if self.frac.len() <= places {
            return self.clone();
        }
        let mut kept: Vec<u8> = Vec::new();
        kept.extend_from_slice(self.whole.as_slice());
        kept.extend_from_slice(vstd::slice::slice_subrange(self.frac.as_slice(), 0, places));
        assert(kept@ =~= self.whole@ + self.frac@.take(places as int));
        assert(is_digit(self.frac@[places as int]));
        let next: u8 = self.frac[places];
        let up: bool = next > 53 || (next == 53 && (self.frac.len() - 1 > places || (kept.len() > 0
            && kept[kept.len() - 1] % 2 == 1)));
        assert(up == self@.rounds_up(places as int));
        let digits = if up {
            incremented(kept.as_slice())
        } else {
            kept
        };
        proof {
            increment_digits(self.whole@ + self.frac@.take(places as int));
        }
        let cut: usize = digits.len() - places;
        let r = Real::from_digits(
            self.negative,
            vstd::slice::slice_subrange(digits.as_slice(), 0, cut),
            vstd::slice::slice_subrange(digits.as_slice(), cut, digits.len()),
        );
        proof {
            assert(digits@.subrange(0, cut as int) =~= digits@.take(cut as int));
            assert(digits@.subrange(cut as int, digits@.len() as int) =~= digits@.skip(cut as int));
        }
        r
    }
}

impl RealModel {
    /// The number with the other sign.
    pub open spec fn negated(self) -> RealModel {
        RealModel { negative: !self.negative, whole: self.whole, frac: self.frac }
    }
}

impl Real {
    /// Whether the number has a minus sign.
    pub fn is_negative(&self) -> (r: bool)
        ensures
            r == self@.negative,
    {
        self.negative
    }

    /// How many digits stand behind the point.
    pub fn place_count(&self) -> (r: usize)
        ensures
            r == self@.frac.len(),
    {
        self.frac.len()
    }

    /// The digits without the point.
    pub fn unpointed_digits(&self) -> (r: Vec<u8>)
        ensures
            r@ == self@.whole + self@.frac,
            all_digits(r@),
    {
        proof {
            use_type_invariant(self);
        }
        let mut r: Vec<u8> = Vec::new();
        r.extend_from_slice(self.whole.as_slice());
        r.extend_from_slice(self.frac.as_slice());
        proof {
            assert(r@ =~= self@.whole + self@.frac);
            assert forall|i: int| 0 <= i < r@.len() implies is_digit(#[trigger] r@[i]) by {
                if i < self.whole@.len() {
                    assert(is_digit(self.whole@[i]));
                } else {
                    assert(is_digit(self.frac@[i - self.whole@.len()]));
                }
            }
        }
        r
    }

    /// The number with the other sign.
    pub fn negated(&self) -> (r: Real)
        ensures
            r@ == self@.negated(),
    {
        proof {
            use_type_invariant(self);
        }
        let c = self.clone();
        let r = Real::from_digits(!c.negative, c.whole.as_slice(), c.frac.as_slice());
        proof {
            assert(self.whole@.len() > 0 ==> self.whole@[0] != 48);
            assert(r@ =~= self@.negated());
        }
        r
    }
}

impl Clone for Real {
    fn clone(&self) -> (r: Self)
        ensures
            r@ == self@,
    {
        proof {
            use_type_invariant(self);
        }
        let mut w: Vec<u8> = Vec::new();
        w.extend_from_slice(self.whole.as_slice());
        let mut f: Vec<u8> = Vec::new();
        f.extend_from_slice(self.frac.as_slice());
        assert(w@ =~= self.whole@);
        assert(f@ =~= self.frac@);
        Real { negative: self.negative, whole: w, frac: f }
    }
}

/// The next number in digits.
fn incremented(digits: &[u8]) -> (r: Vec<u8>)
    requires
        all_digits(digits@),
    ensures
        r@ == increment(digits@),
    decreases digits@.len(),
{
    let n: usize = digits.len();
    if n == 0 {
        let mut r: Vec<u8> = Vec::new();
        r.push(49);
        assert(r@ =~= increment(digits@));
        return r;
    }
    let front = vstd::slice::slice_subrange(digits, 0, n - 1);
    assert(front@ =~= digits@.drop_last());
    let last: u8 = digits[n - 1];
    assert(is_digit(digits@[n - 1]));
    if last == 57 {
        let mut r = incremented(front);
        r.push(48);
        assert(r@ =~= increment(digits@));
        r
    } else {
        let mut r: Vec<u8> = Vec::new();
        r.extend_from_slice(front);
        r.push(last + 1);
        assert(r@ =~= increment(digits@));
        r
    }
}

} // verus!
