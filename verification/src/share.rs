//! The share of packets lost, worked out from counters.
//!
//! The share is a single-precision value: the quotient of the two counters
//! and its product with one hundred are each rounded to 24 binary digits.
//! Counters up to `2^24` are values themselves, so whole numbers suffice to
//! tell what the share is and how it prints.

use crate::number;
use crate::value;
use vstd::arithmetic::power::{lemma_pow0, lemma_pow1, lemma_pow_adds, lemma_pow_positive, pow};
use vstd::prelude::*;

verus! {

/// `2^24`: up to it, every whole number is a single-precision value.
pub const EXACT: u32 = 16_777_216;

/// How often a fraction below `2^23` is doubled until it has 24 binary digits
/// before the point.
pub open spec fn steps_up(num: nat, den: nat) -> nat
    decreases EXACT * den - num,
{
    if num == 0 || num >= 8_388_608 * den {
        0
    } else {
        1 + steps_up(2 * num, den)
    }
}

/// How often a whole number is halved until it has at most 24 binary digits.
pub open spec fn steps_down(n: nat) -> nat
    decreases n,
{
    if n < EXACT {
        0
    } else {
        1 + steps_down(n / 2)
    }
}

/// The single-precision value closest to a whole number.
pub open spec fn single(n: nat) -> nat {
    let step = pow(2, steps_down(n)) as nat;
    value::round_even(n, step) * step
}

/// The share of packets lost in percent, as a numerator and a power of two:
/// the rounded quotient of the counters times one hundred, rounded again.
pub open spec fn percent(lost: nat, transmitted: nat) -> (nat, nat) {
    let k = steps_up(lost, transmitted);
    let quotient = value::round_scaled(lost, transmitted, k as int);
    (single(100 * quotient), pow(2, k) as nat)
}

/// The share of packets lost in percent, without decimals.
pub open spec fn whole_percent(lost: nat, transmitted: nat) -> nat {
    let share = percent(lost, transmitted);
    value::round_even(share.0, share.1)
}

/// The counter that a text denotes, if it is a whole number that is a
/// single-precision value.
pub open spec fn counter_of(s: Seq<char>) -> Option<u32> {
    match number::parse_u32(s) {
        Some(n) => if n <= EXACT {
            Some(n)
        } else {
            None
        },
        None => None,
    }
}

/// Reads a counter.
pub fn read_counter(s: &[char]) -> (res: Option<u32>)
    ensures
        res == counter_of(s@),
{
    match number::read_u32(s) {
        Some(n) => {
            if n <= EXACT {
                Some(n)
            } else {
                None
            }
        },
        None => None,
    }
}

/// The whole number closest to a fraction; of two, the even one.
fn rounded(num: u64, den: u64) -> (res: u64)
    requires
        0 < den < 0x4000_0000_0000_0000,
        num < 0x4000_0000_0000_0000,
    ensures
        res == value::round_even(num as nat, den as nat),
        res <= num / den + 1,
{
    let quotient: u64 = num / den;
    let rest: u64 = num % den;
    assert(quotient <= num) by (nonlinear_arith)
        requires
            den > 0,
            quotient == num / den,
    ;
    if 2 * rest < den {
        quotient
    } else if 2 * rest > den {
        quotient + 1
    } else {
        quotient + quotient % 2
    }
}

/// The rounded quotient of two counters, and the power of two that it is
/// multiplied by.
fn quotient_of(lost: u32, transmitted: u32) -> (res: (u64, u64))
    requires
        0 < transmitted <= EXACT,
        lost <= transmitted,
    ensures
        ({
            let k = steps_up(lost as nat, transmitted as nat);
            &&& res.0 == value::round_scaled(lost as nat, transmitted as nat, k as int)
            &&& res.1 == pow(2, k)
        }),
        res.0 <= EXACT,
        0 < res.1 <= 0x1_0000_0000_0000,
{
    let den: u64 = transmitted as u64;
    let mut num: u64 = lost as u64;
    let mut power: u64 = 1;
    let ghost mut k: nat = 0;
    proof {
        lemma_pow0(2);
    }
    while num != 0 && num < 8_388_608 * den
        invariant
            0 < den <= EXACT,
            num == lost * power,
            power == pow(2, k),
            k + steps_up(num as nat, den as nat) == steps_up(lost as nat, den as nat),
            num < EXACT * den,
            power >= 1,
            lost == 0 ==> power == 1,
            lost > 0 ==> power <= num,
        decreases EXACT * den - num,
    {
        proof {
            lemma_pow_adds(2, k, 1);
            lemma_pow1(2);
            assert(2 * (lost * power) == lost * (2 * power)) by (nonlinear_arith);
            assert(lost > 0) by (nonlinear_arith)
                requires
                    lost * power != 0,
            ;
            k = k + 1;
        }
        num = 2 * num;
        power = 2 * power;
    }
    assert(num / den < EXACT) by (nonlinear_arith)
        requires
            num < EXACT * den,
            den > 0,
    ;
    (rounded(num, den), power)
}

/// The single-precision value closest to a whole number.
fn single_of(n: u64) -> (res: u64)
    requires
        n < 0x1_0000_0000,
    ensures
        res == single(n as nat),
        res < 0x4_0000_0000,
{
    let mut half: u64 = n;
    let mut step: u64 = 1;
    let ghost mut j: nat = 0;
    proof {
        lemma_pow0(2);
    }
    while half >= EXACT as u64
        invariant
            n < 0x1_0000_0000,
            step == pow(2, j),
            j + steps_down(half as nat) == steps_down(n as nat),
            half * step <= n,
            1 <= step <= 0x1_0000_0000,
        decreases half,
    {
        proof {
            lemma_pow_adds(2, j, 1);
            lemma_pow1(2);
            let next = half / 2;
            assert(next * (2 * step) <= half * step) by (nonlinear_arith)
                requires
                    2 * next <= half,
                    step >= 1,
            ;
            assert(2 * step <= next * (2 * step)) by (nonlinear_arith)
                requires
                    next >= 1,
                    step >= 1,
            ;
            j = j + 1;
        }
        half = half / 2;
        step = 2 * step;
    }
    let steps: u64 = rounded(n, step);
    proof {
        let q = n / step;
        assert(q * step <= n) by (nonlinear_arith)
            requires
                q == n / step,
                step >= 1,
        ;
        assert(steps * step <= n + step) by (nonlinear_arith)
            requires
                steps <= q + 1,
                q * step <= n,
                step >= 1,
        ;
    }
    steps * step
}

/// The share of packets lost in percent, without decimals.
pub fn percent_lost(lost: u32, transmitted: u32) -> (res: u64)
    requires
        0 < transmitted <= EXACT,
        lost <= transmitted,
    ensures
        res == whole_percent(lost as nat, transmitted as nat),
{
    let (quotient, power) = quotient_of(lost, transmitted);
    rounded(single_of(100 * quotient), power)
}

/// Doubling a whole number `i` times leaves that many steps fewer.
proof fn lemma_steps_of_one(den: nat, i: nat)
    requires
        den > 0,
        i <= 23,
    ensures
        steps_up((den * pow(2, i)) as nat, den) == 23 - i,
    decreases 23 - i,
{
    lemma_pow_positive(2, i);
    let p = pow(2, i);
    assert(pow(2, 23) == 8_388_608) by {
        reveal_with_fuel(pow, 24);
    }
    if i == 23 {
    } else {
        lemma_steps_of_one(den, i + 1);
        lemma_pow_adds(2, i, 1);
        lemma_pow1(2);
        lemma_pow_adds(2, i + 1, (22 - i) as nat);
        let r = pow(2, (22 - i) as nat);
        lemma_pow_positive(2, (22 - i) as nat);
        assert(p * 2 <= 8_388_608) by (nonlinear_arith)
            requires
                p * 2 * r == 8_388_608,
                p > 0,
                r >= 1,
        ;
        assert(den * p < 8_388_608 * den && den * p > 0) by (nonlinear_arith)
            requires
                0 < p,
                p * 2 <= 8_388_608,
                den > 0,
        ;
        assert(2 * (den * p) == den * (p * 2)) by (nonlinear_arith);
    }
}

/// Nothing lost is a share of zero, and everything lost one of a hundred.
pub proof fn law_all_or_nothing_lost(transmitted: nat)
    requires
        transmitted > 0,
    ensures
        whole_percent(0, transmitted) == 0,
        whole_percent(transmitted, transmitted) == 100,
{
    lemma_pow0(2);
    assert(0 * pow(2, 0) == 0);
    assert(value::round_even(0, transmitted) == 0) by {
        assert(0nat / transmitted == 0 && 0nat % transmitted == 0) by (nonlinear_arith)
            requires
                transmitted > 0,
        ;
    }
    assert(single(0) == 0);
    assert(transmitted * 1 == transmitted);
    lemma_steps_of_one(transmitted, 0);
    assert(pow(2, 23) == 8_388_608) by {
        reveal_with_fuel(pow, 24);
    }
    let m = (transmitted * pow(2, 23)) as nat;
    vstd::arithmetic::div_mod::lemma_fundamental_div_mod_converse(
        m as int,
        transmitted as int,
        8_388_608,
        0,
    );
    assert(value::round_even(m, transmitted) == 8_388_608);
    reveal_with_fuel(steps_down, 8);
    assert(steps_down(838_860_800) == 6);
    assert(pow(2, 6) == 64) by {
        reveal_with_fuel(pow, 7);
    }
    assert(value::round_even(838_860_800, 64) == 13_107_200);
    let step = pow(2, steps_down(838_860_800)) as nat;
    assert(step == 64);
    assert(13_107_200 * step == 838_860_800);
    assert(value::round_even(838_860_800, step) * step == 13_107_200 * step);
    assert(value::round_even(838_860_800, 8_388_608) == 100);
}

/// Rounding moves a fraction by at most one half.
proof fn lemma_round_is_close(num: nat, den: nat)
    requires
        den > 0,
    ensures
        2 * (value::round_even(num, den) * den - num) <= den,
        2 * (num - value::round_even(num, den) * den) <= den,
{
    let q = (num / den) as int;
    let r = (num % den) as int;
    vstd::arithmetic::div_mod::lemma_fundamental_div_mod(num as int, den as int);
    let d = den as int;
    assert(q * d + r == num) by (nonlinear_arith)
        requires
            num == d * q + r,
    ;
    assert((q + 1) * d == q * d + d) by (nonlinear_arith);
}

/// A fraction up to one is doubled until it has 24 binary digits.
proof fn lemma_steps_up(num: nat, den: nat)
    requires
        0 < num <= 8_388_608 * den,
    ensures
        num * pow(2, steps_up(num, den)) >= 8_388_608 * den,
        num * pow(2, steps_up(num, den)) < 16_777_216 * den,
    decreases 16_777_216 * den - num,
{
    lemma_pow0(2);
    if num < 8_388_608 * den {
        let k = steps_up(2 * num, den);
        if 2 * num <= 8_388_608 * den {
            lemma_steps_up(2 * num, den);
        } else {
            assert(k == 0);
        }
        lemma_pow_adds(2, k, 1);
        lemma_pow1(2);
        let p = pow(2, k);
        assert((2 * num) * p == num * (p * 2)) by (nonlinear_arith);
        assert(pow(2, 0) == 1);
        assert(k == 0 ==> (2 * num) * p == 2 * num);
    } else {
        assert(num * 1 == num);
    }
}

/// A step of a whole number is one, or at most one part in `2^23` of it.
proof fn lemma_steps_down(n: nat)
    ensures
        steps_down(n) > 0 ==> pow(2, steps_down(n)) * 8_388_608 <= n,
    decreases n,
{
    if n >= EXACT {
        let j = steps_down(n / 2);
        lemma_steps_down(n / 2);
        lemma_pow_adds(2, j, 1);
        lemma_pow1(2);
        lemma_pow0(2);
        let p = pow(2, j);
        assert(j == 0 ==> p == 1);
    }
}

/// The single-precision value closest to a whole number is close to it.
proof fn lemma_single_is_close(n: nat)
    ensures
        16_777_216 * (single(n) - n) <= n,
        16_777_216 * (n - single(n)) <= n,
{
    let j = steps_down(n);
    let step = pow(2, j) as nat;
    lemma_pow_positive(2, j);
    lemma_pow0(2);
    lemma_steps_down(n);
    lemma_round_is_close(n, step);
    if j == 0 {
        assert(step == 1);
        assert(value::round_even(n, 1) == n);
        assert(n * 1 == n);
    }
}

/// The share of packets lost is what it should be: its whole percents are
/// within half a percent of the share, but for the rounding of the value.
pub proof fn law_share_is_close(lost: nat, transmitted: nat)
    requires
        lost <= transmitted,
        transmitted > 0,
    ensures
        20_000 * (whole_percent(lost, transmitted) * transmitted - 100 * lost) <= 10_001
            * transmitted,
        20_000 * (100 * lost - whole_percent(lost, transmitted) * transmitted) <= 10_001
            * transmitted,
{
    let t = transmitted as int;
    let l = lost as int;
    if lost == 0 {
        law_all_or_nothing_lost(transmitted);
        assert(0 * t == 0);
    } else {
        let k = steps_up(lost, transmitted);
        lemma_steps_up(lost, transmitted);
        let q = pow(2, k);
        lemma_pow_positive(2, k);
        let num = (lost * q) as nat;
        assert(lost * q > 0) by (nonlinear_arith)
            requires
                q > 0,
                lost > 0,
        ;
        let m = value::round_even(num, transmitted);
        lemma_round_is_close(num, transmitted);
        assert(m <= 16_777_216) by (nonlinear_arith)
            requires
                2 * (m * t - num) <= t,
                num < 16_777_216 * t,
                t > 0,
        ;
        let n = 100 * m;
        let p = single(n);
        lemma_single_is_close(n);
        let w = value::round_even(p, q as nat);
        lemma_round_is_close(p, q as nat);
        assert(w == whole_percent(lost, transmitted));
        assert(q >= 8_388_608) by (nonlinear_arith)
            requires
                l * q >= 8_388_608 * t,
                l <= t,
                t > 0,
                l > 0,
        ;
        lemma_share_bounds(w as int, p as int, m as int, l, t, q);
    }
}

/// The roundings of a share taken together.
proof fn lemma_share_bounds(w: int, p: int, m: int, l: int, t: int, q: int)
    requires
        t > 0,
        q >= 8_388_608,
        0 <= m <= 16_777_216,
        -t <= 2 * (m * t - l * q) <= t,
        -100 <= p - 100 * m <= 100,
        -q <= 2 * (w * q - p) <= q,
    ensures
        20_000 * (w * t - 100 * l) <= 10_001 * t,
        20_000 * (100 * l - w * t) <= 10_001 * t,
{
    let x = w * t - 100 * l;
    assert(q * x == t * (w * q - p) + t * (p - 100 * m) + 100 * (m * t - l * q)) by (nonlinear_arith)
        requires
            x == w * t - 100 * l,
    ;
    let a = w * q - p;
    let b = p - 100 * m;
    assert(-(t * q) <= 2 * (t * a) <= t * q) by (nonlinear_arith)
        requires
            t > 0,
            -q <= 2 * a <= q,
    ;
    assert(-100 * t <= t * b <= 100 * t) by (nonlinear_arith)
        requires
            t > 0,
            -100 <= b <= 100,
    ;
    assert(2 * (q * x) <= t * q + 300 * t);
    assert(2 * (q * x) >= -(t * q) - 300 * t);
    assert(20_000 * x <= 10_001 * t) by (nonlinear_arith)
        requires
            2 * (q * x) <= t * q + 300 * t,
            q >= 8_388_608,
            t > 0,
    {
        if 20_000 * x > 10_001 * t {
            assert(q * (20_000 * x) > q * (10_001 * t));
            assert(10_000 * (2 * (q * x)) == q * (20_000 * x));
            assert(10_000 * (t * q + 300 * t) > q * (10_001 * t));
            assert(3_000_000 * t > q * t);
            assert(q * t >= 8_388_608 * t);
        }
    }
    assert(20_000 * (-x) <= 10_001 * t) by (nonlinear_arith)
        requires
            2 * (q * x) >= -(t * q) - 300 * t,
            q >= 8_388_608,
            t > 0,
    {
        if 20_000 * (-x) > 10_001 * t {
            assert(q * (20_000 * (-x)) > q * (10_001 * t));
            assert(10_000 * (-2 * (q * x)) == q * (20_000 * (-x)));
            assert(10_000 * (t * q + 300 * t) > q * (10_001 * t));
            assert(3_000_000 * t > q * t);
            assert(q * t >= 8_388_608 * t);
        }
    }
}

} // verus!
