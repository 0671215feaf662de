//! Numbers in decimal digits.
use vstd::prelude::*;

verus! {

pub open spec fn is_digit(b: u8) -> bool {
    48 <= b <= 57
}

pub open spec fn all_digits(s: Seq<u8>) -> bool {
    forall|i: int| 0 <= i < s.len() ==> is_digit(#[trigger] s[i])
}

/// The number that a sequence of digits writes.
pub open spec fn digits_value(s: Seq<u8>) -> nat
    decreases s.len(),
{
    if s.len() == 0 {
        0
    } else {
        digits_value(s.drop_last()) * 10 + (s.last() - 48) as nat
    }
}

/// The digits of `n`, without leading zeros; `0` is written `0`.
pub open spec fn decimal(n: nat) -> Seq<u8>
    decreases n,
{
    if n < 10 {
        seq![(48 + n) as u8]
    } else {
        decimal(n / 10).push((48 + n % 10) as u8)
    }
}

/// `n` in at least `width` digits, with zeros in front.
pub open spec fn padded(n: nat, width: nat) -> Seq<u8> {
    let d = decimal(n);
    if d.len() < width {
        Seq::new((width - d.len()) as nat, |i: int| 48u8) + d
    } else {
        d
    }
}

/// `n` as it is written, with a minus sign where it is negative.
pub open spec fn signed_decimal(n: int) -> Seq<u8> {
    if n < 0 {
        seq![45u8] + decimal((-n) as nat)
    } else {
        decimal(n as nat)
    }
}

pub proof fn decimal_is_digits(n: nat)
    ensures
        all_digits(decimal(n)),
        decimal(n).len() > 0,
        n > 0 ==> decimal(n)[0] != 48,
    decreases n,
{
    if n >= 10 {
        decimal_is_digits(n / 10);
    }
}

/// Reading the digits of a number gives the number back.
pub proof fn decimal_value(n: nat)
    ensures
        digits_value(decimal(n)) == n,
    decreases n,
{
    if n >= 10 {
        decimal_value(n / 10);
        assert(decimal(n).drop_last() =~= decimal(n / 10));
    } else {
        assert(decimal(n).drop_last() =~= seq![]);
        reveal_with_fuel(digits_value, 2);
    }
}

/// Digits appended to others: the first part counts by the power of ten of the second's length.
pub proof fn digits_value_zeros(k: nat, s: Seq<u8>)
    ensures
        digits_value(Seq::new(k, |i: int| 48u8) + s) == digits_value(s),
    decreases s.len(), k,
{
    let z = Seq::new(k, |i: int| 48u8);
    if s.len() > 0 {
        digits_value_zeros(k, s.drop_last());
        assert((z + s).drop_last() =~= z + s.drop_last());
        assert((z + s).last() == s.last());
    } else if k > 0 {
        let z1 = Seq::new((k - 1) as nat, |i: int| 48u8);
        digits_value_zeros((k - 1) as nat, s);
        assert((z + s).drop_last() =~= z1 + s);
        assert((z + s).last() == 48);
    } else {
        assert(z + s =~= s);
    }
}

/// Leading zeros do not change what is read.
pub proof fn padded_value(n: nat, width: nat)
    ensures
        digits_value(padded(n, width)) == n,
        all_digits(padded(n, width)),
        padded(n, width).len() >= width,
        padded(n, width).len() >= 1,
{
    decimal_value(n);
    decimal_is_digits(n);
    let d = decimal(n);
    if d.len() < width {
        digits_value_zeros((width - d.len()) as nat, d);
    }
}

/// How many digits a number below a power of ten has.
pub proof fn decimal_len_at_most(n: nat, width: nat)
    requires
        n < vstd::arithmetic::power::pow(10, width),
        width >= 1,
    ensures
        decimal(n).len() <= width,
    decreases width,
{
    reveal(vstd::arithmetic::power::pow);
    if n >= 10 {
        if width == 1 {
            assert(vstd::arithmetic::power::pow(10, 1) == 10) by {
                reveal_with_fuel(vstd::arithmetic::power::pow, 2);
            }
            assert(false);
        }
        assert(vstd::arithmetic::power::pow(10, width) == 10 * vstd::arithmetic::power::pow(
            10,
            (width - 1) as nat,
        ));
        decimal_len_at_most(n / 10, (width - 1) as nat);
    }
}

/// Appends the digits of `n`.
pub fn push_decimal(out: &mut Vec<u8>, n: u64)
    ensures
        final(out)@ == old(out)@ + decimal(n as nat),
    decreases n,
{
    if n >= 10 {
        push_decimal(out, n / 10);
        out.push((48 + n % 10) as u8);
        assert(out@ =~= old(out)@ + decimal(n as nat));
    } else {
        out.push((48 + n) as u8);
        assert(out@ =~= old(out)@ + decimal(n as nat));
    }
}

/// Appends the digits of `n`.
pub fn push_wide(out: &mut Vec<u8>, n: u128)
    ensures
        final(out)@ == old(out)@ + decimal(n as nat),
    decreases n,
{
    if n >= 10 {
        push_wide(out, n / 10);
        out.push((48 + n % 10) as u8);
        assert(out@ =~= old(out)@ + decimal(n as nat));
    } else {
        out.push((48 + n) as u8);
        assert(out@ =~= old(out)@ + decimal(n as nat));
    }
}

/// Appends `n` as it is written, sign first.
pub fn push_signed(out: &mut Vec<u8>, n: i64)
    ensures
        final(out)@ == old(out)@ + signed_decimal(n as int),
{
    if n < 0 {
        let magnitude: u64 = if n == i64::MIN {
            9223372036854775808
        } else {
            (-n) as u64
        };
        out.push(45);
        push_decimal(out, magnitude);
        assert(out@ =~= old(out)@ + signed_decimal(n as int));
    } else {
        push_decimal(out, n as u64);
    }
}

/// Appends `n` in at least `width` digits.
pub fn push_padded(out: &mut Vec<u8>, n: u64, width: usize)
    ensures
        final(out)@ == old(out)@ + padded(n as nat, width as nat),
{
    let mut digits: Vec<u8> = Vec::new();
    push_decimal(&mut digits, n);
    assert(digits@ =~= decimal(n as nat));
    let have: usize = digits.len();
    let mut i: usize = have;
    let ghost before = out@;
    assert(out@ =~= before + Seq::new(0, |j: int| 48u8));
    while i < width
        invariant
            have <= i,
            have < width ==> i <= width,
            width <= have ==> i == have,
            out@ == before + Seq::new((i - have) as nat, |j: int| 48u8),
        decreases width - i,
    {
        out.push(48);
        i += 1;
        assert(out@ =~= before + Seq::new((i - have) as nat, |j: int| 48u8));
    }
    out.extend_from_slice(digits.as_slice());
    assert(out@ =~= before + padded(n as nat, width as nat));
}

proof fn digits_value_monotone(s: Seq<u8>, i: int)
    requires
        0 <= i <= s.len(),
        all_digits(s),
    ensures
        digits_value(s.take(i)) <= digits_value(s),
    decreases s.len() - i,
{
    if i < s.len() {
        digits_value_monotone(s, i + 1);
        assert(s.take(i + 1).drop_last() =~= s.take(i));
        assert(s.take(i + 1).last() == s[i]);
    } else {
        assert(s.take(i) =~= s);
    }
}

/// The number that `digits` writes, where it is at most `limit`.
pub fn parse_digits(digits: &[u8], limit: u64) -> (r: Option<u64>)
    requires
        all_digits(digits@),
    ensures
        match r {
            Some(n) => n == digits_value(digits@) && n <= limit,
            None => digits_value(digits@) > limit,
        },
{
    let mut value: u64 = 0;
    let mut i: usize = 0;
    while i < digits.len()
        invariant
            0 <= i <= digits@.len(),
            all_digits(digits@),
            value == digits_value(digits@.take(i as int)),
            value <= limit,
        decreases digits@.len() - i,
    {
        proof {
            assert(digits@.take(i + 1).drop_last() =~= digits@.take(i as int));
            assert(digits@.take(i + 1).last() == digits@[i as int]);
            digits_value_monotone(digits@, i + 1);
            assert(is_digit(digits@[i as int]));
        }
        let d: u64 = (digits[i] - 48) as u64;
        if value > limit / 10 {
            assert(value * 10 + d > limit) by (nonlinear_arith)
                requires
                    value > limit / 10,
            ;
            return None;
        }
        let tenfold: u64 = value * 10;
        if d > limit - tenfold {
            return None;
        }
        value = tenfold + d;
        i += 1;
    }
    assert(digits@.take(i as int) =~= digits@);
    Some(value)
}

} // verus!
