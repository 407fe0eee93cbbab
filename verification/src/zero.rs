//! Whether the value of a number is zero.
//!
//! A single-precision value is zero up to half of the smallest one above it,
//! which is `2^-149`. A number is held against that bound digit by digit.

use crate::number;
use crate::number::{Number, Parts};
use crate::text;
use crate::value;
use vstd::arithmetic::power::{
    lemma_pow0, lemma_pow1, lemma_pow_adds, lemma_pow_increases, lemma_pow_positive, pow,
};
use vstd::prelude::*;

verus! {

/// Whether the single-precision value closest to a fraction is zero: the
/// fraction is at most `2^-150`, of which zero is the even neighbour.
pub open spec fn rounds_to_zero(num: nat, den: nat) -> bool {
    num * pow(2, 150) <= den
}

/// Whether the value of a number is zero, with either sign.
pub open spec fn is_zero(s: Seq<char>) -> bool {
    let body = number::unsigned(s);
    let m = number::digits_value(value::all_digits_of(body));
    let x = value::scale_of(body);
    number::is_decimal(body) && rounds_to_zero(value::numerator(m, x), value::denominator(x))
}

/// The number that digits denote, the least significant one first.
spec fn low_value(v: Seq<u8>) -> nat
    decreases v.len(),
{
    if v.len() == 0 {
        0
    } else {
        (low_value(v.drop_last()) + v.last() * pow(10, (v.len() - 1) as nat)) as nat
    }
}

/// Whether every element is a digit.
spec fn are_digits(v: Seq<u8>) -> bool {
    forall|i: int| 0 <= i < v.len() ==> #[trigger] v[i] <= 9
}

/// One more digit adds its multiple of a power of ten.
proof fn lemma_low_push(v: Seq<u8>, d: u8)
    ensures
        low_value(v.push(d)) == low_value(v) + d * pow(10, v.len()),
        d * pow(10, v.len()) >= 0,
{
    assert(v.push(d).drop_last() == v);
    lemma_pow_positive(10, v.len());
    assert(d * pow(10, v.len()) >= 0) by (nonlinear_arith)
        requires
            pow(10, v.len()) > 0,
    ;
}

/// Digits denote less than the power of ten that follows them.
proof fn lemma_low_bound(v: Seq<u8>)
    requires
        are_digits(v),
    ensures
        low_value(v) < pow(10, v.len()),
    decreases v.len(),
{
    lemma_pow0(10);
    if v.len() > 0 {
        let shorter = v.drop_last();
        assert(forall|i: int| 0 <= i < shorter.len() ==> #[trigger] shorter[i] == v[i]);
        lemma_low_bound(shorter);
        lemma_low_push(shorter, v.last());
        assert(shorter.push(v.last()) == v);
        lemma_pow_adds(10, shorter.len(), 1);
        lemma_pow1(10);
        let p = pow(10, shorter.len());
        let d = v[v.len() - 1] as int;
        assert(d * p <= 9 * p) by (nonlinear_arith)
            requires
                d <= 9,
                p > 0,
        ;
    }
}

/// Digits denote zero if and only if all of them are zero.
proof fn lemma_low_zero(v: Seq<u8>)
    ensures
        low_value(v) == 0 <==> forall|i: int| 0 <= i < v.len() ==> #[trigger] v[i] == 0,
    decreases v.len(),
{
    if v.len() > 0 {
        let shorter = v.drop_last();
        let d = v[v.len() - 1];
        lemma_low_zero(shorter);
        lemma_low_push(shorter, d);
        assert(shorter.push(d) == v);
        let p = pow(10, shorter.len());
        lemma_pow_positive(10, shorter.len());
        assert(d * p == 0 <==> d == 0) by (nonlinear_arith)
            requires
                p > 0,
        ;
        if low_value(v) == 0 {
            assert forall|i: int| 0 <= i < v.len() implies #[trigger] v[i] == 0 by {
                if i < shorter.len() {
                    assert(shorter[i] == v[i]);
                }
            }
        }
        if forall|i: int| 0 <= i < v.len() ==> #[trigger] v[i] == 0 {
            assert(forall|i: int| 0 <= i < shorter.len() ==> #[trigger] shorter[i] == v[i]);
        }
    }
}

/// Zeros at the end add nothing.
proof fn lemma_low_take(v: Seq<u8>, n: int)
    requires
        0 <= n <= v.len(),
        forall|i: int| n <= i < v.len() ==> #[trigger] v[i] == 0,
    ensures
        low_value(v) == low_value(v.take(n)),
    decreases v.len(),
{
    if n == v.len() {
        assert(v.take(n) == v);
    } else {
        let shorter = v.drop_last();
        assert(forall|i: int| 0 <= i < shorter.len() ==> #[trigger] shorter[i] == v[i]);
        lemma_low_take(shorter, n);
        assert(shorter.take(n) == v.take(n));
        lemma_low_push(shorter, v.last());
        assert(shorter.push(v.last()) == v);
        assert(v[v.len() - 1] == 0);
    }
}

/// The digits of a text, the least significant one first.
fn reversed(digits: &[char]) -> (res: Vec<u8>)
    requires
        forall|i: int| 0 <= i < digits@.len() ==> text::is_digit(#[trigger] digits@[i]),
    ensures
        are_digits(res@),
        res@.len() == digits@.len(),
        low_value(res@) == number::digits_value(digits@),
{
    let mut res: Vec<u8> = Vec::new();
    let mut i: usize = digits.len();
    assert(digits@.skip(digits@.len() as int) == Seq::<char>::empty());
    while i > 0
        invariant
            i <= digits@.len(),
            forall|j: int| 0 <= j < digits@.len() ==> text::is_digit(#[trigger] digits@[j]),
            are_digits(res@),
            res@.len() == digits@.len() - i,
            low_value(res@) == number::digits_value(digits@.skip(i as int)),
        decreases i,
    {
        i = i - 1;
        let c: char = digits[i];
        assert(text::is_digit(digits@[i as int]));
        let d: u8 = (c as u32 - '0' as u32) as u8;
        proof {
            let rest = digits@.skip(i as int);
            assert forall|j: int| 0 <= j < rest.len() implies text::is_digit(#[trigger] rest[j]) by {
                assert(rest[j] == digits@[i + j]);
            }
            value::lemma_digits_split(rest, 1);
            assert(rest.skip(1) == digits@.skip(i + 1));
            assert(rest.take(1).drop_last() == Seq::<char>::empty());
            assert(rest.take(1).last() == c);
            assert(number::digits_value(rest.take(1)) == d) by {
                assert(number::digits_value(rest.take(1).drop_last()) == 0);
            }
            lemma_low_push(res@, d);
        }
        res.push(d);
    }
    assert(digits@.skip(0) == digits@);
    res
}

/// Twice a number.
fn doubled(v: &Vec<u8>) -> (res: Vec<u8>)
    requires
        are_digits(v@),
    ensures
        are_digits(res@),
        res@.len() == v@.len() + 1,
        low_value(res@) == 2 * low_value(v@),
{
    let mut res: Vec<u8> = Vec::new();
    let mut carry: u8 = 0;
    let mut i: usize = 0;
    assert(0 * pow(10, 0) == 0);
    assert(v@.take(0) == Seq::<u8>::empty());
    while i < v.len()
        invariant
            i <= v@.len(),
            are_digits(v@),
            are_digits(res@),
            res@.len() == i,
            carry <= 1,
            low_value(res@) + carry * pow(10, i as nat) == 2 * low_value(v@.take(i as int)),
        decreases v@.len() - i,
    {
        let sum: u8 = 2 * v[i] + carry;
        let digit: u8 = sum % 10;
        proof {
            let p = pow(10, i as nat);
            let d = v@[i as int] as int;
            let next = (sum / 10) as int;
            lemma_low_push(res@, digit);
            lemma_low_push(v@.take(i as int), v@[i as int]);
            assert(v@.take(i as int).push(v@[i as int]) == v@.take(i + 1));
            lemma_pow_adds(10, i as nat, 1);
            lemma_pow1(10);
            assert(digit * p + next * (p * 10) == (2 * d + carry) * p) by (nonlinear_arith)
                requires
                    digit + 10 * next == 2 * d + carry,
            ;
            assert((2 * d + carry) * p == 2 * (d * p) + carry * p) by (nonlinear_arith);
        }
        res.push(digit);
        carry = sum / 10;
        i = i + 1;
    }
    assert(v@.take(v@.len() as int) == v@);
    proof {
        lemma_low_push(res@, carry);
    }
    res.push(carry);
    res
}

/// The power of ten is at least a number if and only if the number has no
/// more digits than it has zeros, or is the power itself.
fn at_most_power(v: &Vec<u8>, k: u128) -> (res: bool)
    requires
        are_digits(v@),
    ensures
        res == (low_value(v@) <= pow(10, k as nat)),
{
    let mut n: usize = v.len();
    while n > 0 && v[n - 1] == 0
        invariant
            n <= v@.len(),
            forall|i: int| n <= i < v@.len() ==> #[trigger] v@[i] == 0,
        decreases n,
    {
        n = n - 1;
    }
    let ghost kept = v@.take(n as int);
    proof {
        lemma_low_take(v@, n as int);
        lemma_pow_positive(10, k as nat);
        assert(forall|i: int| 0 <= i < kept.len() ==> #[trigger] kept[i] == v@[i]);
        lemma_low_bound(kept);
    }
    if n as u128 <= k {
        proof {
            lemma_pow_increases(10, n as nat, k as nat);
        }
        return true;
    }
    let ghost rest = kept.drop_last();
    let ghost p = pow(10, rest.len());
    proof {
        assert(kept == v@.take(n as int));
        lemma_low_push(rest, kept.last());
        assert(rest.push(kept.last()) == kept);
        lemma_pow_positive(10, rest.len());
        lemma_low_zero(rest);
    }
    let top: u8 = v[n - 1];
    if n as u128 - 1 > k {
        proof {
            lemma_pow_increases(10, (k + 1) as nat, rest.len());
            lemma_pow_adds(10, k as nat, 1);
            lemma_pow1(10);
            assert(top * p >= p) by (nonlinear_arith)
                requires
                    top >= 1,
                    p > 0,
            ;
        }
        return false;
    }
    if top > 1 {
        proof {
            assert(top * p >= 2 * p) by (nonlinear_arith)
                requires
                    top >= 2,
                    p > 0,
            ;
        }
        return false;
    }
    assert(top * p == p) by (nonlinear_arith)
        requires
            top == 1,
    ;
    let mut i: usize = 0;
    while i < n - 1
        invariant
            i <= n - 1,
            n <= v@.len(),
            rest == v@.take(n as int).drop_last(),
            low_value(rest) == 0 <==> forall|j: int| 0 <= j < rest.len() ==> #[trigger] rest[j] == 0,
            low_value(v@) == low_value(rest) + pow(10, k as nat),
            forall|j: int| 0 <= j < i ==> #[trigger] rest[j] == 0,
        decreases n - i,
    {
        assert(rest[i as int] == v@[i as int]);
        if v[i] != 0 {
            return false;
        }
        i = i + 1;
    }
    true
}

/// The product of a number and a power of two, in digits.
fn doubled_often(digits: &[char], n: usize) -> (res: Vec<u8>)
    requires
        forall|i: int| 0 <= i < digits@.len() ==> text::is_digit(#[trigger] digits@[i]),
    ensures
        are_digits(res@),
        res@.len() == digits@.len() + n,
        low_value(res@) == number::digits_value(digits@) * pow(2, n as nat),
{
    let mut v = reversed(digits);
    let mut i: usize = 0;
    let ghost m = number::digits_value(digits@);
    proof {
        lemma_pow0(2);
        assert(m * 1 == m);
    }
    while i < n
        invariant
            i <= n,
            are_digits(v@),
            v@.len() == digits@.len() + i,
            low_value(v@) == m * pow(2, i as nat),
        decreases n - i,
    {
        v = doubled(&v);
        proof {
            lemma_pow_adds(2, i as nat, 1);
            lemma_pow1(2);
            let p = pow(2, i as nat);
            assert(2 * (m * p) == m * (p * 2)) by (nonlinear_arith);
        }
        i = i + 1;
    }
    v
}

/// A number above the range is zero only where its digits are, and one below
/// the range always is.
proof fn lemma_out_of_range(digits: Seq<char>, x: int)
    requires
        forall|i: int| 0 <= i < digits.len() ==> text::is_digit(#[trigger] digits[i]),
    ensures
        ({
            let m = number::digits_value(digits);
            let zero = rounds_to_zero(value::numerator(m, x), value::denominator(x));
            &&& x >= 0 ==> (zero <==> m == 0)
            &&& x <= -(digits.len() + 150) ==> zero
        }),
{
    let m = number::digits_value(digits);
    let t = pow(2, 150);
    lemma_pow_positive(2, 150);
    if x >= 0 {
        let p = pow(10, x as nat);
        lemma_pow_positive(10, x as nat);
        lemma_pow_increases(2, 1, 150);
        lemma_pow1(2);
        assert(m == 0 ==> m * p * t == 0) by (nonlinear_arith);
        assert(m >= 1 ==> m * p * t >= 2) by (nonlinear_arith)
            requires
                p >= 1,
                t >= 2,
        ;
        assert(m * p >= 0) by (nonlinear_arith)
            requires
                p >= 1,
        ;
    } else if x <= -(digits.len() + 150) {
        value::lemma_digits_split(digits, 0);
        assert(digits.skip(0) == digits);
        let a = pow(10, digits.len());
        lemma_powers_of_ten_grow(150);
        lemma_pow_adds(10, digits.len(), 150);
        lemma_pow_increases(10, digits.len() + 150, (-x) as nat);
        let b = pow(10, 150);
        assert(m * t <= a * b) by (nonlinear_arith)
            requires
                0 <= m < a,
                0 < t <= b,
        ;
    }
}

/// A power of ten is no less than that of two.
proof fn lemma_powers_of_ten_grow(n: nat)
    ensures
        pow(2, n) <= pow(10, n),
    decreases n,
{
    lemma_pow0(2);
    lemma_pow0(10);
    if n > 0 {
        lemma_powers_of_ten_grow((n - 1) as nat);
        lemma_pow_adds(2, (n - 1) as nat, 1);
        lemma_pow_adds(10, (n - 1) as nat, 1);
        lemma_pow1(2);
        lemma_pow1(10);
        lemma_pow_positive(2, (n - 1) as nat);
    }
}

impl Number {
    /// Whether the value of the number is zero.
    pub fn is_zero(&self) -> (res: bool)
        ensures
            res == is_zero(self@),
    {
        let chars: Vec<char> = text::chars_of(self.as_str());
        let body = number::without_sign(&chars);
        if !number::all_decimal(body) {
            return false;
        }
        let (digits, x) = value::read_scaled(body);
        let len: usize = digits.len();
        proof {
            lemma_out_of_range(digits@, value::scale_of(body@));
            lemma_out_of_range(digits@, x as int);
            assert(len <= u64::MAX);
        }
        let product = doubled_often(&digits, 150);
        if x >= 0 {
            proof {
                lemma_pow_positive(2, 150);
                let m = number::digits_value(digits@);
                let t = pow(2, 150);
                assert(m * t == 0 <==> m == 0) by (nonlinear_arith)
                    requires
                        t > 0,
                ;
                lemma_low_zero(product@);
            }
            return all_zero(&product);
        }
        let k: u128 = (-x) as u128;
        proof {
            lemma_pow_positive(10, k as nat);
            assert(k == -x);
            assert(value::denominator(x as int) == pow(10, k as nat));
            let m = number::digits_value(digits@);
            assert(rounds_to_zero(value::numerator(m, x as int), value::denominator(x as int)) == (
            low_value(product@) <= pow(10, k as nat)));
            assert(x == value::scale_of(body@) || (x <= -(len + 150) && value::scale_of(body@) <= -(
            len + 150)));
        }
        at_most_power(&product, k)
    }
}

/// Of the numbers printed in decimal, zero is the one with the value zero.
pub proof fn law_counter_is_zero(n: nat)
    ensures
        is_zero(number::decimal(n)) <==> n == 0,
{
    let s = number::decimal(n);
    number::lemma_decimal(n);
    value::lemma_plain_digits(s);
    lemma_out_of_range(s, 0);
}

/// Whether every element is zero.
fn all_zero(v: &Vec<u8>) -> (res: bool)
    ensures
        res == (forall|i: int| 0 <= i < v@.len() ==> #[trigger] v@[i] == 0),
{
    let mut i: usize = 0;
    while i < v.len()
        invariant
            i <= v@.len(),
            forall|j: int| 0 <= j < i ==> #[trigger] v@[j] == 0,
        decreases v@.len() - i,
    {
        if v[i] != 0 {
            return false;
        }
        i = i + 1;
    }
    true
}

/// A decimal number has the value zero where its digits, scaled by its
/// exponent, are at most half the smallest single-precision value above zero,
/// which is `2^-149`; its sign does not matter. What is infinite or not a
/// number is not zero.
pub proof fn law_zeros(p: Parts, s: Seq<char>)
    requires
        p.are_decimal(),
    ensures
        ({
            let digits = number::digits_value(p.whole + p.fraction);
            let zero = if p.scale() >= 0 {
                digits * pow(10, p.scale() as nat) * pow(2, 150) <= 1
            } else {
                digits * pow(2, 150) <= pow(10, (-p.scale()) as nat)
            };
            &&& is_zero(p.joined()) <==> zero
            &&& is_zero(seq!['+'] + p.joined()) <==> zero
            &&& is_zero(seq!['-'] + p.joined()) <==> zero
        }),
        number::is_number(s) && !number::is_decimal(number::unsigned(s)) ==> !is_zero(s),
{
    let t = p.joined();
    value::lemma_value_of_parts(p);
    number::lemma_no_sign(p);
    assert((seq!['+'] + t).skip(1) == t);
    assert((seq!['-'] + t).skip(1) == t);
    let m = number::digits_value(p.whole + p.fraction);
    let x = p.scale();
    if x >= 0 {
        lemma_pow_positive(10, x as nat);
        let q = pow(10, x as nat);
        assert(m * q >= 0) by (nonlinear_arith)
            requires
                q > 0,
        ;
    } else {
        lemma_pow_positive(10, (-x) as nat);
    }
}

} // verus!
