//! The values of numbers, as far as decisions rest on them.
//!
//! A number that a tool printed stands for the single-precision value closest
//! to it. What is decided here are questions about that value that whole
//! numbers answer: how many packets it counts, and whether it is below ten.

use crate::number;
use crate::number::{Number, Parts};
use crate::text;
use crate::text::Class;
use vstd::arithmetic::div_mod::lemma_fundamental_div_mod;
use vstd::arithmetic::div_mod::lemma_fundamental_div_mod_converse;
use vstd::arithmetic::power::{
    lemma_pow0, lemma_pow1, lemma_pow_adds, lemma_pow_increases, lemma_pow_positive, pow,
};
use vstd::prelude::*;
use vstd::slice::slice_subrange;

verus! {

/// The digits before and behind the dot of a decimal number, without the dot.
pub open spec fn all_digits_of(s: Seq<char>) -> Seq<char> {
    text::take_while(s, Class::Digit) + fraction_digits(s)
}

/// The digits behind the dot of a decimal number.
pub open spec fn fraction_digits(s: Seq<char>) -> Seq<char> {
    let rest = text::trim_start(s, Class::Digit);
    if rest.len() > 0 && rest[0] == '.' {
        text::take_while(rest.skip(1), Class::Digit)
    } else {
        Seq::empty()
    }
}

/// What a decimal number holds behind its digits: an exponent or nothing.
pub open spec fn exponent_text(s: Seq<char>) -> Seq<char> {
    let whole = text::leading(s, Class::Digit);
    s.skip((whole + number::fraction_len(s.skip(whole as int))) as int)
}

/// The exponent of a decimal number.
pub open spec fn exponent_of(s: Seq<char>) -> int {
    let tail = exponent_text(s);
    let digits = number::digits_value(number::unsigned(tail.skip(1)));
    if tail.len() == 0 {
        0
    } else if tail.len() > 1 && tail[1] == '-' {
        -(digits as int)
    } else {
        digits as int
    }
}

/// The power of ten by which the digits of a decimal number are multiplied.
pub open spec fn scale_of(s: Seq<char>) -> int {
    exponent_of(s) - fraction_digits(s).len()
}

/// The numerator of `m * 10^x`.
pub open spec fn numerator(m: nat, x: int) -> nat {
    if x >= 0 {
        (m * pow(10, x as nat)) as nat
    } else {
        m
    }
}

/// The denominator of `m * 10^x`.
pub open spec fn denominator(x: int) -> nat {
    if x >= 0 {
        1
    } else {
        pow(10, (-x) as nat) as nat
    }
}

/// The whole number closest to a fraction; of two, the even one.
pub open spec fn round_even(num: nat, den: nat) -> nat {
    let quotient = num / den;
    let rest = num % den;
    if 2 * rest < den {
        quotient
    } else if 2 * rest > den {
        quotient + 1
    } else {
        quotient + quotient % 2
    }
}

/// The whole number closest to a fraction times `2^k`; of two, the even one.
pub open spec fn round_scaled(num: nat, den: nat, k: int) -> nat {
    if k >= 0 {
        round_even((num * pow(2, k as nat)) as nat, den)
    } else {
        round_even(num, (den * pow(2, (-k) as nat)) as nat)
    }
}

/// The largest exponent up to `j` whose power of two does not exceed the
/// fraction; -1 where even one does.
pub open spec fn binary_exponent(num: nat, den: nat, j: nat) -> int
    decreases j,
{
    if pow(2, j) * den <= num {
        j as int
    } else if j == 0 {
        -1
    } else {
        binary_exponent(num, den, (j - 1) as nat)
    }
}

/// The whole part of the single-precision value closest to a fraction, up to
/// the largest 32-bit number.
///
/// A single-precision value holds 24 binary digits, so with the binary
/// exponent `j` it counts steps of `2^(j-23)`.
pub open spec fn whole_part(num: nat, den: nat) -> nat {
    if num >= pow(2, 32) * den {
        u32::MAX as nat
    } else if 2 * num < den {
        0
    } else {
        let j = binary_exponent(num, den, 31);
        let steps = round_scaled(num, den, 23 - j);
        let whole = if j <= 23 {
            steps as int / pow(2, (23 - j) as nat)
        } else {
            steps * pow(2, (j - 23) as nat)
        };
        if whole <= u32::MAX {
            whole as nat
        } else {
            u32::MAX as nat
        }
    }
}

/// Whether the single-precision value closest to a fraction is below ten.
///
/// From eight to sixteen its steps are `2^-20`.
pub open spec fn is_below_ten(num: nat, den: nat) -> bool {
    if num >= 16 * den {
        false
    } else if num < 8 * den {
        true
    } else {
        round_scaled(num, den, 20) < 10 * pow(2, 20)
    }
}

/// Whether the text begins with a minus sign.
pub open spec fn is_negative(s: Seq<char>) -> bool {
    s.len() > 0 && s[0] == '-'
}

/// The packets that a number counts: the whole part of its value, from zero
/// to the largest 32-bit number. What is no number counts none.
pub open spec fn count_of(s: Seq<char>) -> nat {
    let body = number::unsigned(s);
    if is_negative(s) || number::is_word(body, "nan"@) {
        0
    } else if number::is_decimal(body) {
        let m = number::digits_value(all_digits_of(body));
        whole_part(numerator(m, scale_of(body)), denominator(scale_of(body)))
    } else {
        u32::MAX as nat
    }
}

/// Whether the value of a number is below ten, which NaN is not.
pub open spec fn below_ten(s: Seq<char>) -> bool {
    let body = number::unsigned(s);
    if number::is_word(body, "nan"@) {
        false
    } else if is_negative(s) {
        true
    } else if number::is_decimal(body) {
        let m = number::digits_value(all_digits_of(body));
        is_below_ten(numerator(m, scale_of(body)), denominator(scale_of(body)))
    } else {
        false
    }
}

/// `10^25`: that many decimals of a number are kept exactly, and of the rest
/// only whether it is zero.
pub const UNIT: u128 = 10_000_000_000_000_000_000_000_000;

/// `2^32` in units.
pub const LIMIT: u128 = 42_949_672_960_000_000_000_000_000_000_000_000;

/// A fraction in units: the whole units, and whether there is a rest.
pub open spec fn in_units(num: nat, den: nat, units: nat, rest: bool) -> bool {
    &&& units == (num * UNIT) / den as int
    &&& rest == ((num * UNIT) % den as int != 0)
}

/// The whole number closest to a quotient that has a rest behind its
/// dividend or not; of two, the even one.
spec fn round_units(dividend: int, divisor: int, rest: bool) -> int {
    let quotient = dividend / divisor;
    let remainder = dividend % divisor;
    if 2 * remainder < divisor {
        quotient
    } else if 2 * remainder > divisor || rest {
        quotient + 1
    } else {
        quotient + quotient % 2
    }
}

/// The binary exponent of a value in units.
spec fn exponent_in_units(units: nat, j: nat) -> int
    decreases j,
{
    if pow(2, j) * UNIT <= units {
        j as int
    } else if j == 0 {
        -1
    } else {
        exponent_in_units(units, (j - 1) as nat)
    }
}

/// The whole part of the single-precision value closest to one in units.
spec fn whole_in_units(units: nat, rest: bool) -> int {
    if 2 * units < UNIT {
        0
    } else {
        let j = exponent_in_units(units, 31);
        let whole = if j <= 23 {
            let p = pow(2, (23 - j) as nat);
            round_units(units * p, UNIT as int, rest) / p
        } else {
            let p = pow(2, (j - 23) as nat);
            round_units(units as int, UNIT * p, rest) * p
        };
        if whole <= u32::MAX {
            whole
        } else {
            u32::MAX as int
        }
    }
}

proof fn lemma_unit()
    ensures
        pow(10, 25) == UNIT,
        pow(2, 32) == 4_294_967_296,
        pow(2, 32) * UNIT == LIMIT,
{
    assert(pow(10, 7) == 10_000_000) by {
        reveal_with_fuel(pow, 8);
    }
    assert(pow(10, 6) == 1_000_000) by {
        reveal_with_fuel(pow, 7);
    }
    lemma_pow_adds(10, 6, 6);
    assert(pow(10, 12) == 1_000_000_000_000);
    lemma_pow_adds(10, 6, 7);
    assert(pow(10, 13) == 10_000_000_000_000);
    lemma_pow_adds(10, 12, 13);
    assert(pow(2, 16) == 65_536) by {
        reveal_with_fuel(pow, 17);
    }
    lemma_pow_adds(2, 16, 16);
}

/// The digits from a position on add less than one unit of the digits before
/// it.
pub proof fn lemma_digits_split(s: Seq<char>, k: int)
    requires
        0 <= k <= s.len(),
        forall|i: int| 0 <= i < s.len() ==> text::is_digit(#[trigger] s[i]),
    ensures
        number::digits_value(s) == number::digits_value(s.take(k)) * pow(
            10,
            (s.len() - k) as nat,
        ) + number::digits_value(s.skip(k)),
        number::digits_value(s.skip(k)) < pow(10, (s.len() - k) as nat),
    decreases s.len(),
{
    let head = number::digits_value(s.take(k)) as int;
    if k == s.len() {
        assert(s.take(k) == s);
        assert(s.skip(k) == Seq::<char>::empty());
        lemma_pow0(10);
        assert(head * 1 == head);
    } else {
        let shorter = s.drop_last();
        let n = (s.len() - k) as nat;
        lemma_digits_split(shorter, k);
        assert(shorter.take(k) == s.take(k));
        assert(s.skip(k).drop_last() == shorter.skip(k));
        assert(s.skip(k).last() == s.last());
        assert(text::is_digit(s[s.len() - 1]));
        let p = pow(10, (n - 1) as nat);
        let low = number::digits_value(shorter.skip(k)) as int;
        let digit = number::digit_value(s.last()) as int;
        assert(number::digits_value(shorter) == head * p + low);
        assert(number::digits_value(s) == 10 * (head * p + low) + digit);
        assert(number::digits_value(s.skip(k)) == 10 * low + digit);
        assert(pow(10, n) == 10 * p) by {
            reveal(pow);
        }
        assert(head * (10 * p) == 10 * (head * p)) by (nonlinear_arith);
    }
}

/// A text of digits denotes zero if and only if it holds no other digit.
proof fn lemma_digits_zero(s: Seq<char>)
    requires
        forall|i: int| 0 <= i < s.len() ==> text::is_digit(#[trigger] s[i]),
    ensures
        number::digits_value(s) == 0 <==> forall|i: int| 0 <= i < s.len() ==> #[trigger] s[i] == '0',
    decreases s.len(),
{
    if s.len() > 0 {
        let shorter = s.drop_last();
        lemma_digits_zero(shorter);
        assert(text::is_digit(s[s.len() - 1]));
        if forall|i: int| 0 <= i < s.len() ==> #[trigger] s[i] == '0' {
            assert(forall|i: int| 0 <= i < shorter.len() ==> #[trigger] shorter[i] == s[i]);
        }
        if number::digits_value(s) == 0 {
            assert forall|i: int| 0 <= i < s.len() implies #[trigger] s[i] == '0' by {
                if i < shorter.len() {
                    assert(shorter[i] == s[i]);
                }
            }
        }
    }
}

/// A denominator is positive.
proof fn lemma_denominator(x: int)
    ensures
        denominator(x) > 0,
{
    if x < 0 {
        lemma_pow_positive(10, (-x) as nat);
    }
}

/// With no more decimals than are kept, a number is a whole number of units.
proof fn lemma_whole_units(m: nat, x: int)
    requires
        x + 25 >= 0,
    ensures
        numerator(m, x) * UNIT == m * pow(10, (x + 25) as nat) * denominator(x),
{
    lemma_unit();
    let up = pow(10, (x + 25) as nat);
    if x >= 0 {
        lemma_pow_adds(10, x as nat, 25);
        let p = pow(10, x as nat);
        lemma_pow_positive(10, x as nat);
        assert(m * p >= 0) by (nonlinear_arith)
            requires
                p > 0,
        ;
        assert((m * p) * UNIT == m * (p * UNIT) * 1) by (nonlinear_arith);
    } else {
        lemma_pow_positive(10, (-x) as nat);
        lemma_pow_adds(10, (x + 25) as nat, (-x) as nat);
        let den = denominator(x) as int;
        assert(m * (up * den) == m * up * den) by (nonlinear_arith);
    }
}

/// A whole number of units is its own number of whole units, and compares to
/// the limit as the number does to `2^32`.
proof fn lemma_exact_units(num: nat, den: nat, units: nat)
    requires
        den > 0,
        num * UNIT == units * den,
    ensures
        in_units(num, den, units, false),
        units < LIMIT <==> num < pow(2, 32) * den,
{
    lemma_unit();
    lemma_fundamental_div_mod_converse(
        (num * UNIT) as int,
        den as int,
        units as int,
        0,
    );
    let two = pow(2, 32);
    assert(units < two * UNIT <==> num < two * den) by (nonlinear_arith)
        requires
            num * UNIT == units * den,
            den > 0,
            UNIT > 0,
    ;
}

/// With more decimals than are kept, the digits that are kept are the whole
/// units, and the others are the rest.
proof fn lemma_cut_units(m: nat, x: int, high: nat, low: nat)
    requires
        x + 25 < 0,
        m == high * pow(10, (-x - 25) as nat) + low,
        low < pow(10, (-x - 25) as nat),
    ensures
        in_units(numerator(m, x), denominator(x), high, low != 0),
        high < LIMIT <==> numerator(m, x) < pow(2, 32) * denominator(x),
{
    lemma_unit();
    let p = pow(10, (-x - 25) as nat);
    let den = denominator(x) as int;
    let two = pow(2, 32);
    lemma_pow_adds(10, 25, (-x - 25) as nat);
    lemma_pow_positive(10, (-x) as nat);
    lemma_pow_positive(10, (-x - 25) as nat);
    assert(den == UNIT * p);
    assert(m * UNIT == high * den + low * UNIT) by (nonlinear_arith)
        requires
            m == high * p + low,
            den == UNIT * p,
    ;
    assert(0 <= low * UNIT < den) by (nonlinear_arith)
        requires
            0 <= low < p,
            den == UNIT * p,
            UNIT > 0,
    ;
    lemma_fundamental_div_mod_converse(
        (m * UNIT) as int,
        den,
        high as int,
        (low * UNIT) as int,
    );
    assert(low != 0 <==> low * UNIT != 0) by (nonlinear_arith)
        requires
            UNIT > 0,
    ;
    assert(high < two * UNIT <==> m < two * den) by (nonlinear_arith)
        requires
            m == high * p + low,
            0 <= low < p,
            den == UNIT * p,
            p > 0,
    ;
}

/// Ten times as many digits make no smaller a number.
proof fn lemma_shift_grows(m: nat, c: nat, e: nat)
    requires
        c <= e,
    ensures
        m * pow(10, c) <= m * pow(10, e),
{
    lemma_pow_increases(10, c, e);
    let a = pow(10, c);
    let b = pow(10, e);
    assert(m * a <= m * b) by (nonlinear_arith)
        requires
            a <= b,
    ;
}

/// A decimal number in units: the whole units and whether there is a rest, or
/// `None` from `2^32` on.
fn units_of(digits: &[char], x: i128) -> (res: Option<(u128, bool)>)
    requires
        forall|i: int| 0 <= i < digits@.len() ==> text::is_digit(#[trigger] digits@[i]),
        -1_000_000_000_000_000_000_000_000_000_000_000_000 < x
            < 1_000_000_000_000_000_000_000_000_000_000_000_000,
    ensures
        ({
            let num = numerator(number::digits_value(digits@), x as int);
            let den = denominator(x as int);
            match res {
                Some((units, rest)) => num < pow(2, 32) * den && in_units(
                    num,
                    den,
                    units as nat,
                    rest,
                ),
                None => num >= pow(2, 32) * den,
            }
        }),
{
    let ghost m = number::digits_value(digits@);
    let ghost num = numerator(m, x as int);
    let ghost den = denominator(x as int);
    let e: i128 = x + 25;
    let len: usize = digits.len();
    // The digits from here on stand behind the last decimal kept.
    let keep: usize = if e >= 0 {
        len
    } else if -e >= len as i128 {
        0
    } else {
        (len as i128 + e) as usize
    };
    let ghost high = number::digits_value(digits@.take(keep as int));
    let ghost low = number::digits_value(digits@.skip(keep as int));
    proof {
        lemma_denominator(x as int);
        lemma_digits_split(digits@, keep as int);
        if e >= 0 {
            assert(digits@.take(keep as int) == digits@);
            lemma_whole_units(m, x as int);
        } else {
            lemma_pow_increases(10, (len - keep) as nat, (-e) as nat);
            assert(-x - 25 == -e);
            if keep == 0 {
                assert(digits@.take(0) == Seq::<char>::empty());
                assert(high == 0);
                assert(0 * pow(10, (len - keep) as nat) == 0);
                assert(0 * pow(10, (-e) as nat) == 0);
                assert(m == high * pow(10, (-e) as nat) + low);
            } else {
                assert(len - keep == -e);
            }
            lemma_cut_units(m, x as int, high, low);
        }
    }
    let mut units: u128 = 0;
    let mut i: usize = 0;
    while i < keep
        invariant
            i <= keep <= digits@.len(),
            forall|j: int| 0 <= j < digits@.len() ==> text::is_digit(#[trigger] digits@[j]),
            units == number::digits_value(digits@.take(i as int)),
            units < LIMIT,
            m == number::digits_value(digits@),
            num == numerator(m, x as int),
            den == denominator(x as int),
            den > 0,
            e == x + 25,
            high == number::digits_value(digits@.take(keep as int)),
            e >= 0 ==> high == m && num * UNIT == m * pow(10, e as nat) * den,
            e < 0 ==> (high < LIMIT <==> num < pow(2, 32) * den),
        decreases keep - i,
    {
        assert(text::is_digit(digits@[i as int]));
        let digit: u128 = (digits[i] as u32 - '0' as u32) as u128;
        units = units * 10 + digit;
        assert(digits@.take(i + 1).drop_last() == digits@.take(i as int));
        i = i + 1;
        if units >= LIMIT {
            proof {
                number::lemma_digits_value_grows(digits@.take(keep as int), i as int);
                assert(digits@.take(keep as int).take(i as int) == digits@.take(i as int));
                if e >= 0 {
                    lemma_pow0(10);
                    lemma_shift_grows(m, 0, e as nat);
                    lemma_exact_units(num, den, (m * pow(10, e as nat)) as nat);
                }
            }
            return None;
        }
    }
    if e < 0 {
        let mut rest = false;
        let ghost tail = digits@.skip(keep as int);
        while i < len
            invariant
                keep <= i <= len,
                len == digits@.len(),
                tail == digits@.skip(keep as int),
                rest == (exists|j: int| keep <= j < i && #[trigger] digits@[j] != '0'),
            decreases len - i,
        {
            if digits[i] != '0' {
                rest = true;
            }
            i = i + 1;
        }
        proof {
            lemma_digits_zero(tail);
            if rest {
                let j = choose|j: int| keep <= j < len && #[trigger] digits@[j] != '0';
                assert(tail[j - keep] != '0');
            } else {
                assert forall|j: int| 0 <= j < tail.len() implies #[trigger] tail[j] == '0' by {
                    assert(digits@[j + keep] == '0');
                }
            }
        }
        return Some((units, rest));
    }
    let mut c: i128 = 0;
    proof {
        lemma_pow0(10);
    }
    while c < e && units > 0
        invariant
            0 <= c <= e,
            m == number::digits_value(digits@),
            num == numerator(m, x as int),
            den == denominator(x as int),
            units == m * pow(10, c as nat),
            units < LIMIT,
            den > 0,
            num * UNIT == m * pow(10, e as nat) * den,
        decreases e - c,
    {
        units = units * 10;
        c = c + 1;
        proof {
            let p = pow(10, (c - 1) as nat);
            assert(pow(10, c as nat) == 10 * p) by {
                reveal(pow);
            }
            assert(m * (10 * p) == 10 * (m * p)) by (nonlinear_arith);
        }
        if units >= LIMIT {
            proof {
                lemma_shift_grows(m, c as nat, e as nat);
                lemma_exact_units(num, den, (m * pow(10, e as nat)) as nat);
            }
            return None;
        }
    }
    proof {
        if c < e {
            lemma_pow_positive(10, c as nat);
            let p = pow(10, c as nat);
            assert(m == 0) by (nonlinear_arith)
                requires
                    0 == m * p,
                    p > 0,
                    m >= 0,
            ;
            assert(0 * pow(10, e as nat) == 0);
        }
        assert(units == m * pow(10, e as nat));
        lemma_exact_units(num, den, units as nat);
    }
    Some((units, false))
}

/// The powers of two that are needed, and how they divide a unit.
proof fn lemma_two_powers(k: nat)
    requires
        k <= 24,
    ensures
        pow(2, k) > 0,
        pow(2, k) <= 16_777_216,
        pow(2, k) * pow(2, (24 - k) as nat) == 16_777_216,
        UNIT == 2 * (pow(2, k) * (pow(2, (24 - k) as nat) * 298_023_223_876_953_125)),
{
    lemma_pow_positive(2, k);
    lemma_pow_positive(2, (24 - k) as nat);
    lemma_pow_adds(2, k, (24 - k) as nat);
    assert(pow(2, 8) == 256) by {
        reveal_with_fuel(pow, 9);
    }
    assert(pow(2, 16) == 65_536) by {
        lemma_pow_adds(2, 8, 8);
    }
    assert(pow(2, 24) == 16_777_216) by {
        lemma_pow_adds(2, 8, 16);
    }
    lemma_pow_increases(2, k, 24);
    let p = pow(2, k);
    let q = pow(2, (24 - k) as nat);
    assert(2 * (p * (q * 298_023_223_876_953_125)) == 2 * ((p * q) * 298_023_223_876_953_125))
        by (nonlinear_arith);
}

/// A fraction times a power of two rounds as its units do, where the power
/// divides the unit more than once.
proof fn lemma_round_up(num: nat, den: nat, units: nat, rest: bool, p: nat, c: nat)
    requires
        den > 0,
        p > 0,
        c > 0,
        UNIT == 2 * (p * c),
        in_units(num, den, units, rest),
    ensures
        round_even(num * p, den) == round_units((units * p) as int, UNIT as int, rest),
{
    let unit = UNIT as int;
    let rho = (num * unit) % den as int;
    lemma_fundamental_div_mod(num * unit, den as int);
    lemma_fundamental_div_mod((units * p) as int, unit);
    let q = (units * p) as int / unit;
    let r = (units * p) as int % unit;
    // The remainder is a multiple of the power.
    let u = units - 2 * c * q;
    assert(r == p * u) by (nonlinear_arith)
        requires
            units * p == unit * q + r,
            unit == 2 * (p * c),
            u == units - 2 * c * q,
    ;
    assert(0 <= u < 2 * c) by (nonlinear_arith)
        requires
            r == p * u,
            0 <= r < unit,
            unit == 2 * (p * c),
            p > 0,
    ;
    let left = num * p - q * den;
    assert(left * unit == p * (u * den + rho)) by (nonlinear_arith)
        requires
            num * unit == den * units + rho,
            u == units - 2 * c * q,
            left == num * p - q * den,
            unit == 2 * (p * c),
    ;
    assert(left * (2 * c) == u * den + rho) by (nonlinear_arith)
        requires
            left * unit == p * (u * den + rho),
            unit == 2 * (p * c),
            p > 0,
    ;
    assert(0 <= left < den) by (nonlinear_arith)
        requires
            left * (2 * c) == u * den + rho,
            0 <= u < 2 * c,
            0 <= rho < den,
            den > 0,
            c > 0,
    ;
    lemma_fundamental_div_mod_converse((num * p) as int, den as int, q, left);
    assert(2 * left < den <==> u < c) by (nonlinear_arith)
        requires
            left * (2 * c) == u * den + rho,
            0 <= rho < den,
            den > 0,
            c > 0,
    ;
    assert(2 * left > den <==> u > c || (u == c && rho > 0)) by (nonlinear_arith)
        requires
            left * (2 * c) == u * den + rho,
            0 <= rho < den,
            den > 0,
            c > 0,
    ;
    assert(2 * r < unit <==> u < c) by (nonlinear_arith)
        requires
            r == p * u,
            unit == 2 * (p * c),
            p > 0,
    ;
    assert(2 * r > unit <==> u > c) by (nonlinear_arith)
        requires
            r == p * u,
            unit == 2 * (p * c),
            p > 0,
    ;
}

/// A fraction divided by a power of two rounds as its units do.
proof fn lemma_round_down(num: nat, den: nat, units: nat, rest: bool, p: nat)
    requires
        den > 0,
        p > 0,
        in_units(num, den, units, rest),
    ensures
        round_even(num, den * p) == round_units(units as int, UNIT * p, rest),
{
    let unit = UNIT as int;
    let h = unit / 2;
    let rho = (num * unit) % den as int;
    let wide = unit * p;
    lemma_fundamental_div_mod(num * unit, den as int);
    assert(wide > 0) by (nonlinear_arith)
        requires
            unit > 0,
            p > 0,
            wide == unit * p,
    ;
    lemma_fundamental_div_mod(units as int, wide);
    let q = units as int / wide;
    let r = units as int % wide;
    let big = den * p;
    assert(big > 0) by (nonlinear_arith)
        requires
            den > 0,
            p > 0,
            big == den * p,
    ;
    let left = num - q * big;
    assert(left * unit == r * den + rho) by (nonlinear_arith)
        requires
            num * unit == den * units + rho,
            units == wide * q + r,
            left == num - q * big,
            wide == unit * p,
            big == den * p,
    ;
    assert(0 <= left < big) by (nonlinear_arith)
        requires
            left * unit == r * den + rho,
            0 <= r < wide,
            0 <= rho < den,
            wide == unit * p,
            big == den * p,
            unit > 0,
            den > 0,
    ;
    lemma_fundamental_div_mod_converse(num as int, big as int, q, left);
    let half = h * p;
    assert(wide == 2 * half) by (nonlinear_arith)
        requires
            wide == unit * p,
            half == h * p,
            unit == 2 * h,
    ;
    assert(2 * left * h == r * den + rho) by (nonlinear_arith)
        requires
            left * unit == r * den + rho,
            unit == 2 * h,
    ;
    assert(2 * left < big <==> r < half) by (nonlinear_arith)
        requires
            2 * left * h == r * den + rho,
            0 <= rho < den,
            half == h * p,
            big == den * p,
            h > 0,
            den > 0,
    ;
    assert(2 * left > big <==> r > half || (r == half && rho > 0)) by (nonlinear_arith)
        requires
            2 * left * h == r * den + rho,
            0 <= rho < den,
            half == h * p,
            big == den * p,
            h > 0,
            den > 0,
    ;
}

/// A power of two that a value in units reaches is one that the fraction
/// reaches.
proof fn lemma_reaches(num: nat, den: nat, units: nat, rest: bool, a: nat)
    requires
        den > 0,
        in_units(num, den, units, rest),
    ensures
        units >= a * UNIT <==> num >= a * den,
{
    let unit = UNIT as int;
    let rho = (num * unit) % den as int;
    lemma_fundamental_div_mod(num * unit, den as int);
    assert(units >= a * unit <==> num >= a * den) by (nonlinear_arith)
        requires
            num * unit == den * units + rho,
            0 <= rho < den,
            den > 0,
            unit > 0,
    ;
}

/// A value in units is below one half if and only if the fraction is.
proof fn lemma_below_half(num: nat, den: nat, units: nat, rest: bool)
    requires
        den > 0,
        in_units(num, den, units, rest),
    ensures
        2 * units < UNIT <==> 2 * num < den,
{
    let unit = UNIT as int;
    let h = unit / 2;
    let rho = (num * unit) % den as int;
    lemma_fundamental_div_mod(num * unit, den as int);
    assert(units < h <==> 2 * num < den) by (nonlinear_arith)
        requires
            num * unit == den * units + rho,
            unit == 2 * h,
            0 <= rho < den,
            den > 0,
            h > 0,
    ;
}

/// A value in units has the binary exponent of the fraction.
proof fn lemma_same_exponent(num: nat, den: nat, units: nat, rest: bool, j: nat)
    requires
        den > 0,
        in_units(num, den, units, rest),
    ensures
        exponent_in_units(units, j) == binary_exponent(num, den, j),
        -1 <= exponent_in_units(units, j) <= j,
    decreases j,
{
    lemma_pow_positive(2, j);
    lemma_reaches(num, den, units, rest, pow(2, j) as nat);
    if pow(2, j) * UNIT > units && j > 0 {
        lemma_same_exponent(num, den, units, rest, (j - 1) as nat);
    }
}

/// A value in units stays below the power of two that follows its exponent.
proof fn lemma_exponent_bound(units: nat, j: nat)
    requires
        units < pow(2, j + 1) * UNIT,
    ensures
        -1 <= exponent_in_units(units, j) <= j,
        units < pow(2, (exponent_in_units(units, j) + 1) as nat) * UNIT,
    decreases j,
{
    if pow(2, j) * UNIT > units && j > 0 {
        lemma_exponent_bound(units, (j - 1) as nat);
    }
}

/// A value in units has the whole part of the fraction.
proof fn lemma_same_whole(num: nat, den: nat, units: nat, rest: bool)
    requires
        den > 0,
        num < pow(2, 32) * den,
        in_units(num, den, units, rest),
    ensures
        whole_in_units(units, rest) == whole_part(num, den),
{
    lemma_below_half(num, den, units, rest);
    lemma_same_exponent(num, den, units, rest, 31);
    let j = exponent_in_units(units, 31);
    if 2 * units >= UNIT {
        if j <= 23 {
            let k = (23 - j) as nat;
            lemma_two_powers(k);
            lemma_pow_positive(2, (24 - k) as nat);
            let c = pow(2, (24 - k) as nat) * 298_023_223_876_953_125;
            assert(c > 0);
            lemma_round_up(num, den, units, rest, pow(2, k) as nat, c as nat);
        } else {
            let k = (j - 23) as nat;
            lemma_pow_positive(2, k);
            lemma_round_down(num, den, units, rest, pow(2, k) as nat);
        }
    }
}

/// A power of two.
fn two_to(k: usize) -> (res: u128)
    requires
        k <= 32,
    ensures
        res == pow(2, k as nat),
        0 < res <= 4_294_967_296,
{
    let mut res: u128 = 1;
    let mut i: usize = 0;
    proof {
        lemma_pow0(2);
        lemma_unit();
    }
    while i < k
        invariant
            i <= k <= 32,
            res == pow(2, i as nat),
            res <= 4_294_967_296,
            pow(2, 32) == 4_294_967_296,
        decreases k - i,
    {
        i = i + 1;
        proof {
            assert(pow(2, i as nat) == 2 * pow(2, (i - 1) as nat)) by {
                reveal(pow);
            }
            lemma_pow_increases(2, i as nat, 32);
        }
        res = res * 2;
    }
    proof {
        lemma_pow_positive(2, k as nat);
    }
    res
}

/// The whole number closest to a quotient that has a rest or not.
fn divide(dividend: u128, divisor: u128, rest: bool) -> (res: u128)
    requires
        0 < divisor <= 1_000_000 * UNIT,
    ensures
        res == round_units(dividend as int, divisor as int, rest),
        res <= dividend / divisor + 1,
{
    let quotient: u128 = dividend / divisor;
    let remainder: u128 = dividend % divisor;
    proof {
        if divisor == 1 {
            assert(remainder == 0);
        } else {
            assert(quotient < u128::MAX) by (nonlinear_arith)
                requires
                    divisor > 1,
                    quotient == dividend / divisor,
                    dividend <= u128::MAX,
            ;
        }
    }
    if 2 * remainder < divisor {
        quotient
    } else if 2 * remainder > divisor || rest {
        quotient + 1
    } else {
        quotient + quotient % 2
    }
}

/// The whole part of the single-precision value closest to one in units.
fn whole_of(units: u128, rest: bool) -> (res: u32)
    requires
        units < LIMIT,
    ensures
        res == whole_in_units(units as nat, rest),
{
    if 2 * units < UNIT {
        return 0;
    }
    let mut j: usize = 31;
    let mut step: u128 = two_to(31);
    while j > 0 && units < step * UNIT
        invariant
            j <= 31,
            step == pow(2, j as nat),
            step <= 4_294_967_296,
            exponent_in_units(units as nat, j as nat) == exponent_in_units(units as nat, 31),
        decreases j,
    {
        j = j - 1;
        step = two_to(j);
    }
    let ghost exponent = exponent_in_units(units as nat, 31);
    proof {
        lemma_unit();
        lemma_exponent_bound(units as nat, 31);
    }
    if j > 23 {
        let p: u128 = two_to(j - 23);
        proof {
            lemma_pow_increases(2, (j - 23) as nat, 8);
            assert(pow(2, 8) == 256) by {
                reveal_with_fuel(pow, 9);
            }
        }
        let steps: u128 = divide(units, UNIT * p, rest);
        proof {
            let wide = UNIT * p;
            assert(units as int / wide <= 4_294_967_296) by (nonlinear_arith)
                requires
                    units < LIMIT,
                    wide >= UNIT,
                    LIMIT == 4_294_967_296 * UNIT,
                    UNIT > 0,
            ;
            assert(steps * p <= 4_294_967_297 * 256) by (nonlinear_arith)
                requires
                    steps <= 4_294_967_297,
                    p <= 256,
            ;
        }
        let whole: u128 = steps * p;
        return if whole <= u32::MAX as u128 {
            whole as u32
        } else {
            u32::MAX
        };
    }
    let k: usize = if units < step * UNIT {
        24
    } else {
        23 - j
    };
    let p: u128 = two_to(k);
    proof {
        assert(exponent == 23 - k);
        lemma_two_powers(k as nat);
        let q = pow(2, (24 - k) as nat);
        assert(units * p <= 16_777_216 * UNIT) by (nonlinear_arith)
            requires
                units < q * UNIT,
                p * q == 16_777_216,
                p > 0,
        ;
    }
    let steps: u128 = divide(units * p, UNIT, rest);
    let whole: u128 = steps / p;
    if whole <= u32::MAX as u128 {
        whole as u32
    } else {
        u32::MAX
    }
}

/// The exponent from which on all numbers are out of range, in either
/// direction.
pub const FAR: i128 = 1_000_000_000_000_000_000_000_000_000_000;

/// Whether a number is another one, cut to the range from `-FAR` to `FAR`.
pub open spec fn is_cut(cut: int, n: int) -> bool {
    cut == (if n > FAR {
        FAR as int
    } else if n < -FAR {
        -FAR
    } else {
        n
    })
}

/// Reads a text of digits, up to `FAR`.
fn read_far(digits: &[char]) -> (res: i128)
    requires
        forall|i: int| 0 <= i < digits@.len() ==> text::is_digit(#[trigger] digits@[i]),
    ensures
        is_cut(res as int, number::digits_value(digits@) as int),
{
    let mut value: i128 = 0;
    let mut i: usize = 0;
    while i < digits.len()
        invariant
            i <= digits@.len(),
            forall|j: int| 0 <= j < digits@.len() ==> text::is_digit(#[trigger] digits@[j]),
            is_cut(value as int, number::digits_value(digits@.take(i as int)) as int),
            0 <= value <= FAR,
        decreases digits@.len() - i,
    {
        assert(text::is_digit(digits@[i as int]));
        let digit: i128 = (digits[i] as u32 - '0' as u32) as i128;
        assert(digits@.take(i + 1).drop_last() == digits@.take(i as int));
        value = value * 10 + digit;
        if value > FAR {
            value = FAR;
        }
        i = i + 1;
    }
    assert(digits@.take(digits@.len() as int) == digits@);
    value
}

/// The exponent of a decimal number, cut to the range that matters.
fn read_exponent(body: &[char]) -> (res: i128)
    requires
        number::is_decimal(body@),
    ensures
        is_cut(res as int, exponent_of(body@)),
{
    let whole: usize = text::leading_run(body, Class::Digit);
    let rest = slice_subrange(body, whole, body.len());
    assert(rest@ == body@.skip(whole as int));
    let mut fraction: usize = 0;
    if rest.len() > 0 && rest[0] == '.' {
        let behind = slice_subrange(rest, 1, rest.len());
        assert(behind@ == rest@.skip(1));
        let digits: usize = text::leading_run(behind, Class::Digit);
        fraction = 1 + digits;
    }
    let tail = slice_subrange(rest, fraction, rest.len());
    assert(tail@ == exponent_text(body@));
    if tail.len() == 0 {
        return 0;
    }
    let signed = slice_subrange(tail, 1, tail.len());
    assert(signed@ == tail@.skip(1));
    let digits = number::without_sign(signed);
    assert(number::is_digits(digits@));
    let value: i128 = read_far(digits);
    if signed.len() > 0 && signed[0] == '-' {
        -value
    } else {
        value
    }
}

/// The digits of a decimal number, and how many of them stand behind the dot.
fn read_digits(body: &[char]) -> (res: (Vec<char>, usize))
    ensures
        res.0@ == all_digits_of(body@),
        res.1 == fraction_digits(body@).len(),
        res.1 <= res.0@.len(),
        forall|i: int| 0 <= i < res.0@.len() ==> text::is_digit(#[trigger] res.0@[i]),
{
    let whole = text::prefix_of(body, Class::Digit);
    let rest = text::trimmed_start(body, Class::Digit);
    proof {
        text::lemma_leading(body@, Class::Digit);
        assert forall|i: int| 0 <= i < whole@.len() implies text::is_digit(#[trigger] whole@[i]) by {
            assert(Class::Digit.has(body@[i]));
        }
    }
    let mut digits: Vec<char> = Vec::new();
    let mut i: usize = 0;
    while i < whole.len()
        invariant
            i <= whole@.len(),
            digits@ == whole@.take(i as int),
        decreases whole@.len() - i,
    {
        digits.push(whole[i]);
        i = i + 1;
    }
    assert(digits@ == whole@);
    if rest.len() == 0 || rest[0] != '.' {
        assert(digits@ == all_digits_of(body@));
        return (digits, 0);
    }
    let behind = slice_subrange(rest, 1, rest.len());
    assert(behind@ == rest@.skip(1));
    let fraction = text::prefix_of(behind, Class::Digit);
    proof {
        text::lemma_leading(behind@, Class::Digit);
        assert forall|i: int| 0 <= i < fraction@.len() implies text::is_digit(
            #[trigger] fraction@[i],
        ) by {
            assert(Class::Digit.has(behind@[i]));
        }
    }
    let mut i: usize = 0;
    while i < fraction.len()
        invariant
            i <= fraction@.len(),
            digits@ == whole@ + fraction@.take(i as int),
        decreases fraction@.len() - i,
    {
        digits.push(fraction[i]);
        i = i + 1;
    }
    assert(digits@ == whole@ + fraction@);
    (digits, fraction.len())
}

/// Whether a value in units stands for a fraction: `None` from `2^32` on.
spec fn stands_for(value: Option<(u128, bool)>, num: nat, den: nat) -> bool {
    match value {
        Some((units, rest)) => num < pow(2, 32) * den && in_units(num, den, units as nat, rest),
        None => num >= pow(2, 32) * den,
    }
}

/// Two scales that are both out of range, on the same side, make no
/// difference.
proof fn lemma_far(digits: Seq<char>, x: int, y: int, value: Option<(u128, bool)>)
    requires
        forall|i: int| 0 <= i < digits.len() ==> text::is_digit(#[trigger] digits[i]),
        (x >= 40 && y >= 40) || (x <= -(digits.len() + 26) && y <= -(digits.len() + 26)),
        stands_for(
            value,
            numerator(number::digits_value(digits), x),
            denominator(x),
        ),
    ensures
        stands_for(
            value,
            numerator(number::digits_value(digits), y),
            denominator(y),
        ),
{
    let m = number::digits_value(digits);
    lemma_unit();
    if x >= 0 {
        if m == 0 {
            assert(0 * pow(10, x as nat) == 0);
            assert(0 * pow(10, y as nat) == 0);
        } else {
            lemma_pow_increases(10, 25, x as nat);
            lemma_pow_increases(10, 25, y as nat);
            let a = pow(10, x as nat);
            let b = pow(10, y as nat);
            assert(m * a >= UNIT && m * b >= UNIT) by (nonlinear_arith)
                requires
                    m >= 1,
                    a >= UNIT,
                    b >= UNIT,
            ;
        }
    } else {
        lemma_digits_split(digits, 0);
        assert(digits.take(0) == Seq::<char>::empty());
        assert(digits.skip(0) == digits);
        assert(0 * pow(10, digits.len()) == 0);
        lemma_pow_increases(10, digits.len(), (-x - 25) as nat);
        lemma_pow_increases(10, digits.len(), (-y - 25) as nat);
        assert(0 * pow(10, (-x - 25) as nat) == 0);
        assert(0 * pow(10, (-y - 25) as nat) == 0);
        lemma_cut_units(m, x, 0, m);
        lemma_cut_units(m, y, 0, m);
    }
}

/// The digits of a decimal number, and the power of ten by which they are
/// multiplied, as far as it is in range.
pub fn read_scaled(body: &[char]) -> (res: (Vec<char>, i128))
    requires
        number::is_decimal(body@),
    ensures
        res.0@ == all_digits_of(body@),
        forall|i: int| 0 <= i < res.0@.len() ==> text::is_digit(#[trigger] res.0@[i]),
        is_cut(res.1 + fraction_digits(body@).len(), exponent_of(body@)),
        fraction_digits(body@).len() <= res.0@.len(),
{
    let (digits, fraction) = read_digits(body);
    let exponent: i128 = read_exponent(body);
    (digits, exponent - fraction as i128)
}

/// The value of a decimal number, in units.
fn read_units(body: &[char]) -> (res: Option<(u128, bool)>)
    requires
        number::is_decimal(body@),
    ensures
        stands_for(
            res,
            numerator(number::digits_value(all_digits_of(body@)), scale_of(body@)),
            denominator(scale_of(body@)),
        ),
{
    let (digits, x) = read_scaled(body);
    let len: usize = digits.len();
    let res = units_of(&digits, x);
    proof {
        let y = scale_of(body@);
        if x != y {
            assert(len <= u64::MAX);
            lemma_far(digits@, x as int, y, res);
        }
    }
    res
}

impl Number {
    /// The packets that the number counts.
    pub fn count(&self) -> (res: u32)
        ensures
            res == count_of(self@),
    {
        let chars: Vec<char> = text::chars_of(self.as_str());
        let body = number::without_sign(&chars);
        if chars.len() > 0 && chars[0] == '-' {
            return 0;
        }
        if number::all_word(body, "nan") {
            return 0;
        }
        if !number::all_decimal(body) {
            return u32::MAX;
        }
        proof {
            lemma_denominator(scale_of(body@));
        }
        match read_units(body) {
            Some((units, rest)) => {
                proof {
                    let num = numerator(
                        number::digits_value(all_digits_of(body@)),
                        scale_of(body@),
                    );
                    let den = denominator(scale_of(body@));
                    lemma_unit();
                    lemma_reaches(num, den, units as nat, rest, pow(2, 32) as nat);
                    lemma_same_whole(num, den, units as nat, rest);
                }
                whole_of(units, rest)
            },
            None => u32::MAX,
        }
    }

    /// Whether the value of the number is below ten.
    pub fn is_below_ten(&self) -> (res: bool)
        ensures
            res == below_ten(self@),
    {
        let chars: Vec<char> = text::chars_of(self.as_str());
        let body = number::without_sign(&chars);
        if number::all_word(body, "nan") {
            return false;
        }
        if chars.len() > 0 && chars[0] == '-' {
            return true;
        }
        if !number::all_decimal(body) {
            return false;
        }
        let ghost num = numerator(number::digits_value(all_digits_of(body@)), scale_of(body@));
        let ghost den = denominator(scale_of(body@));
        proof {
            lemma_denominator(scale_of(body@));
            lemma_unit();
        }
        match read_units(body) {
            Some((units, rest)) => {
                proof {
                    lemma_reaches(num, den, units as nat, rest, 8);
                    lemma_reaches(num, den, units as nat, rest, 16);
                }
                if units >= 16 * UNIT {
                    return false;
                }
                if units < 8 * UNIT {
                    return true;
                }
                let p: u128 = two_to(20);
                proof {
                    lemma_two_powers(20);
                    lemma_pow_positive(2, 4);
                    let c = pow(2, 4) * 298_023_223_876_953_125;
                    lemma_round_up(num, den, units as nat, rest, p as nat, c as nat);
                    assert(units * p < 16 * UNIT * 16_777_216) by (nonlinear_arith)
                        requires
                            units < 16 * UNIT,
                            0 < p <= 16_777_216,
                    ;
                    assert(num * pow(2, 20) >= 0) by (nonlinear_arith)
                        requires
                            pow(2, 20) > 0,
                            num >= 0,
                    ;
                }
                divide(units * p, UNIT, rest) < 10 * p
            },
            None => {
                proof {
                    assert(num >= 16 * den) by (nonlinear_arith)
                        requires
                            num >= pow(2, 32) * den,
                            pow(2, 32) == 4_294_967_296,
                            den > 0,
                    ;
                }
                false
            },
        }
    }
}

/// Every whole number up to `2^24` is a single-precision value.
proof fn lemma_whole_number(n: nat)
    requires
        n <= 16_777_216,
    ensures
        whole_part(n, 1) == n,
{
    lemma_unit();
    if n > 0 {
        let j = binary_exponent(n, 1, 31);
        lemma_exponent_reached(n, 31);
        lemma_two_powers(24);
        lemma_pow0(2);
        if j > 24 {
            lemma_pow_increases(2, 25, j as nat);
            lemma_pow_adds(2, 24, 1);
            lemma_pow1(2);
            assert(pow(2, 25) == 33_554_432);
        } else if j == 24 {
            lemma_pow1(2);
            assert(n == 16_777_216);
            assert(round_scaled(n, 1, -1) == 8_388_608) by {
                assert((1 * pow(2, 1)) as nat == 2);
            }
            assert(whole_part(n, 1) == n);
        } else {
            let k = (23 - j) as nat;
            let p = pow(2, k);
            lemma_pow_positive(2, k);
            let m = (n * p) as nat;
            assert(n * p >= 0) by (nonlinear_arith)
                requires
                    p > 0,
            ;
            assert(round_even(m, 1) == m);
            lemma_fundamental_div_mod_converse(m as int, p, n as int, 0);
        }
    }
}

/// The binary exponent of a positive whole number is that of a power of two
/// that it reaches.
proof fn lemma_exponent_reached(n: nat, j: nat)
    requires
        n > 0,
    ensures
        0 <= binary_exponent(n, 1, j) <= j,
        pow(2, binary_exponent(n, 1, j) as nat) <= n,
    decreases j,
{
    lemma_pow0(2);
    if pow(2, j) > n && j > 0 {
        lemma_exponent_reached(n, (j - 1) as nat);
    }
}

/// A text of digits is a decimal number with nothing but its digits.
pub proof fn lemma_plain_digits(s: Seq<char>)
    requires
        number::is_digits(s),
    ensures
        number::unsigned(s) == s,
        number::is_decimal(s),
        all_digits_of(s) == s,
        scale_of(s) == 0,
{
    assert(text::is_digit(s[0]));
    assert forall|i: int| 0 <= i < s.len() implies Class::Digit.has(#[trigger] s[i]) by {
        assert(text::is_digit(s[i]));
    }
    text::lemma_leading_is(s, Class::Digit, s.len() as int);
    assert(s.take(s.len() as int) == s);
    assert(s.skip(s.len() as int) == Seq::<char>::empty());
    assert(all_digits_of(s) == s);
    assert(exponent_text(s) == Seq::<char>::empty());
}

/// A counter up to `2^24` that a tool prints as plain digits is read as it
/// is. Beyond, not every whole number is a single-precision value.
pub proof fn law_plain_counter_reads_back(n: nat)
    requires
        n <= 16_777_216,
    ensures
        number::is_number(number::decimal(n)),
        count_of(number::decimal(n)) == n,
{
    let s = number::decimal(n);
    number::lemma_decimal(n);
    lemma_plain_digits(s);
    lemma_pow0(10);
    assert(numerator(n, 0) == n);
    reveal_strlit("nan");
    assert(!number::is_word(s, "nan"@)) by {
        if number::is_word(s, "nan"@) {
            assert(text::is_digit(s[0]));
            assert(number::is_letter(s[0], 'n'));
        }
    }
    lemma_whole_number(n);
}

/// A whole number is below ten as its value is.
pub proof fn law_whole_number_below_ten(n: nat)
    ensures
        below_ten(number::decimal(n)) <==> n < 10,
{
    let s = number::decimal(n);
    number::lemma_decimal(n);
    lemma_plain_digits(s);
    assert(text::is_digit(s[0]));
    lemma_pow0(10);
    assert(numerator(n, 0) == n);
    reveal_strlit("nan");
    assert(!number::is_word(s, "nan"@)) by {
        if number::is_word(s, "nan"@) {
            assert(number::is_letter(s[0], 'n'));
        }
    }
    let p = pow(2, 20);
    lemma_pow_positive(2, 20);
    let m = (n * p) as nat;
    assert(n * p >= 0) by (nonlinear_arith)
        requires
            p > 0,
    ;
    assert(round_even(m, 1) == m);
    assert(n * p < 10 * p <==> n < 10) by (nonlinear_arith)
        requires
            p > 0,
    ;
}

/// What a number counts is the whole part of its value, or the next whole
/// number where the value rounds up to it; from `2^32` on it is the largest
/// 32-bit number.
pub proof fn law_count_is_close(num: nat, den: nat)
    requires
        den > 0,
    ensures
        num < 16_777_216 * den ==> whole_part(num, den) * den <= num + den && num < (whole_part(
            num,
            den,
        ) + 1) * den,
        num >= 4_294_967_296 * den ==> whole_part(num, den) == u32::MAX,
{
    lemma_unit();
    assert(0 * den == 0 && (0 + 1) * den == den) by (nonlinear_arith);
    if num < 16_777_216 * den && 2 * num >= den {
        let j = binary_exponent(num, den, 31);
        lemma_exponent_range(num, den, 31);
        lemma_two_powers(24);
        lemma_pow0(2);
        assert(pow(2, 24) == 16_777_216);
        if j > 23 {
            lemma_pow_increases(2, 24, j as nat);
            let a = pow(2, j as nat);
            assert(a * den >= 16_777_216 * den) by (nonlinear_arith)
                requires
                    a >= 16_777_216,
                    den > 0,
            ;
        }
        let q = (23 - j) as nat;
        let p = pow(2, q);
        lemma_pow_positive(2, q);
        let m = (num * p) as nat;
        assert(num * p >= 0) by (nonlinear_arith)
            requires
                p > 0,
        ;
        let steps = round_even(m, den);
        let f = m / den;
        lemma_fundamental_div_mod(m as int, den as int);
        lemma_fundamental_div_mod(steps as int, p);
        let w = steps as int / p;
        let rest = m % den;
        let low = steps as int % p;
        assert(steps == f || steps == f + 1);
        assert(steps == f + 1 ==> rest > 0);
        lemma_close(num as int, den as int, p, f as int, rest as int, steps as int, w, low);
        assert(w <= u32::MAX) by (nonlinear_arith)
            requires
                w * den <= num + den,
                num < 16_777_216 * den,
                den > 0,
        ;
        assert(w >= 0) by (nonlinear_arith)
            requires
                num < (w + 1) * den,
                num >= 0,
                den > 0,
        ;
    }
}

/// Rounding to steps moves a fraction by less than a whole number.
proof fn lemma_close(
    num: int,
    den: int,
    p: int,
    f: int,
    rest: int,
    steps: int,
    w: int,
    low: int,
)
    requires
        den > 0,
        p > 0,
        num >= 0,
        num * p == den * f + rest,
        0 <= rest < den,
        steps == f || (steps == f + 1 && rest > 0),
        steps == p * w + low,
        0 <= low < p,
    ensures
        w * den <= num + den,
        num < (w + 1) * den,
{
    assert(w * den <= num + den) by (nonlinear_arith)
        requires
            den > 0,
            p > 0,
            num * p == den * f + rest,
            0 <= rest < den,
            steps <= f + 1,
            steps == p * w + low,
            0 <= low < p,
    {
        assert(p * (w * den) == (p * w) * den);
        assert((p * w) * den <= (f + 1) * den);
        assert((f + 1) * den == den * f + den);
        assert(den * f + den <= num * p + den);
        assert(den <= den * p);
        assert(p * (w * den) <= p * (num + den));
    }
    assert(num < (w + 1) * den) by (nonlinear_arith)
        requires
            den > 0,
            p > 0,
            num * p == den * f + rest,
            0 <= rest < den,
            f <= steps,
            steps == p * w + low,
            0 <= low < p,
    {
        assert(steps + 1 <= p * w + p);
        assert(num * p < den * f + den);
        assert(den * f + den == den * (f + 1));
        assert(den * (f + 1) <= den * (p * w + p));
        assert(den * (p * w + p) == p * ((w + 1) * den));
        assert(num * p < p * ((w + 1) * den));
    }
}

/// The binary exponent is in range, and its power of two is reached.
proof fn lemma_exponent_range(num: nat, den: nat, j: nat)
    ensures
        -1 <= binary_exponent(num, den, j) <= j,
        binary_exponent(num, den, j) >= 0 ==> pow(2, binary_exponent(num, den, j) as nat) * den
            <= num,
    decreases j,
{
    if !(pow(2, j) * den <= num) && j > 0 {
        lemma_exponent_range(num, den, (j - 1) as nat);
    }
}

/// A value from ten on is not below ten, and one that is less by a step of the
/// single-precision values there is.
pub proof fn law_below_ten_is_exact(num: nat, den: nat)
    requires
        den > 0,
    ensures
        num >= 10 * den ==> !is_below_ten(num, den),
        1_048_576 * (10 * den - num) >= den ==> is_below_ten(num, den),
{
    assert(pow(2, 20) == 1_048_576) by {
        reveal_with_fuel(pow, 21);
    }
    if 8 * den <= num < 16 * den {
        let m = (num * pow(2, 20)) as nat;
        assert(m == num * 1_048_576);
        let q = (m / den) as int;
        let r = (m % den) as int;
        let d = den as int;
        lemma_fundamental_div_mod(m as int, d);
        assert(m == d * q + r);
        let ten = 10_485_760int;
        if num >= 10 * den {
            assert(q >= ten) by (nonlinear_arith)
                requires
                    m == d * q + r,
                    0 <= r < d,
                    m >= ten * d,
            ;
        }
        if 1_048_576 * (10 * den - num) >= den {
            assert(m <= ten * d - d);
            assert(q <= ten - 1) by (nonlinear_arith)
                requires
                    m == d * q + r,
                    0 <= r < d,
                    m <= ten * d - d,
            ;
            assert(q == ten - 1 ==> r == 0) by (nonlinear_arith)
                requires
                    m == d * q + r,
                    0 <= r < d,
                    m <= ten * d - d,
            ;
        }
    }
}

/// The digits of a decimal number and the power of ten they are scaled by.
pub proof fn lemma_value_of_parts(p: Parts)
    requires
        p.are_decimal(),
    ensures
        all_digits_of(p.joined()) == p.whole + p.fraction,
        scale_of(p.joined()) == p.scale(),
        number::is_decimal(p.joined()),
{
    number::lemma_parts(p);
    let s = p.joined();
    if p.point {
        let rest = p.fraction + p.power();
        assert(rest.take(p.fraction.len() as int) =~= p.fraction);
    } else {
        assert(p.fraction =~= Seq::<char>::empty());
    }
    assert(fraction_digits(s) =~= p.fraction);
    assert(exponent_text(s) == p.power());
    if let Some((letter, sign, digits)) = p.exponent {
        let behind = sign + digits;
        assert(p.power().skip(1) =~= behind);
        assert(text::is_digit(digits[0]));
        assert(p.power()[1] == behind[0]);
        if sign.len() == 0 {
            assert(behind =~= digits);
        } else {
            assert(behind.skip(1) =~= digits);
            assert(behind[0] == sign[0]);
            assert(sign[0] == '-' ==> sign == seq!['-']);
        }
    }
}

/// A decimal number counts what its digits denote, scaled by its exponent: the
/// whole part of that value, or the next whole number where it rounds up to
/// it. A plus sign changes nothing, and nothing below zero counts.
pub proof fn law_count_of_decimals(p: Parts)
    requires
        p.are_decimal(),
    ensures
        ({
            let digits = number::digits_value(p.whole + p.fraction);
            let num = if p.scale() >= 0 {
                digits * pow(10, p.scale() as nat)
            } else {
                digits as int
            };
            let den = if p.scale() >= 0 {
                1
            } else {
                pow(10, (-p.scale()) as nat)
            };
            let count = count_of(p.joined());
            &&& num < 16_777_216 * den ==> count * den <= num + den && num < (count + 1) * den
            &&& num >= 4_294_967_296 * den ==> count == u32::MAX
            &&& count_of(seq!['+'] + p.joined()) == count
            &&& count_of(seq!['-'] + p.joined()) == 0
        }),
{
    let s = p.joined();
    lemma_value_of_parts(p);
    number::lemma_no_sign(p);
    assert((seq!['+'] + s).skip(1) == s);
    number::lemma_spelled(s);
    let x = p.scale();
    let m = number::digits_value(p.whole + p.fraction);
    lemma_denominator(x);
    law_count_is_close(numerator(m, x), denominator(x));
    if x >= 0 {
        lemma_pow_positive(10, x as nat);
        let t = pow(10, x as nat);
        assert(m * t >= 0) by (nonlinear_arith)
            requires
                t > 0,
        ;
    } else {
        lemma_pow_positive(10, (-x) as nat);
    }
}

/// The words for what is not a number count nothing, nor does anything below
/// zero; infinity counts as much as there is.
pub proof fn law_count_of_words(s: Seq<char>)
    ensures
        number::spells(s, seq!['n', 'a', 'n'], seq!['N', 'A', 'N']) ==> count_of(s) == 0
            && count_of(seq!['+'] + s) == 0 && count_of(seq!['-'] + s) == 0,
        number::spells(s, seq!['i', 'n', 'f'], seq!['I', 'N', 'F']) || number::spells(
            s,
            seq!['i', 'n', 'f', 'i', 'n', 'i', 't', 'y'],
            seq!['I', 'N', 'F', 'I', 'N', 'I', 'T', 'Y'],
        ) ==> count_of(s) == u32::MAX && count_of(seq!['+'] + s) == u32::MAX && count_of(
            seq!['-'] + s,
        ) == 0,
{
    lemma_words_alone(s);
    assert((seq!['+'] + s).skip(1) == s);
}

/// A word is no decimal number, and has no sign.
proof fn lemma_words_alone(s: Seq<char>)
    ensures
        number::spells(s, seq!['n', 'a', 'n'], seq!['N', 'A', 'N']) ==> number::is_word(s, "nan"@)
            && number::unsigned(s) == s && !is_negative(s),
        number::spells(s, seq!['i', 'n', 'f'], seq!['I', 'N', 'F']) || number::spells(
            s,
            seq!['i', 'n', 'f', 'i', 'n', 'i', 't', 'y'],
            seq!['I', 'N', 'F', 'I', 'N', 'I', 'T', 'Y'],
        ) ==> !number::is_word(s, "nan"@) && !number::is_decimal(s) && number::unsigned(s) == s
            && !is_negative(s),
{
    number::lemma_spelled(s);
    if s.len() > 0 && (s[0] == 'i' || s[0] == 'I') {
        assert(text::leading(s, Class::Digit) == 0);
        assert(s.skip(0) =~= s);
    }
}

/// The times are printed with more decimals where the largest is below ten. A
/// decimal number is as its value is; a negative number is below ten, and what
/// is not a number or infinite is not.
pub proof fn law_below_ten_of_numbers(p: Parts, s: Seq<char>)
    requires
        p.are_decimal(),
    ensures
        ({
            let digits = number::digits_value(p.whole + p.fraction);
            let num = if p.scale() >= 0 {
                digits * pow(10, p.scale() as nat)
            } else {
                digits as int
            };
            let den = if p.scale() >= 0 {
                1
            } else {
                pow(10, (-p.scale()) as nat)
            };
            &&& num >= 10 * den ==> !below_ten(p.joined())
            &&& 1_048_576 * (10 * den - num) >= den ==> below_ten(p.joined())
            &&& below_ten(seq!['+'] + p.joined()) == below_ten(p.joined())
            &&& below_ten(seq!['-'] + p.joined())
        }),
        number::spells(s, seq!['n', 'a', 'n'], seq!['N', 'A', 'N']) ==> !below_ten(s)
            && !below_ten(seq!['+'] + s) && !below_ten(seq!['-'] + s),
        number::spells(s, seq!['i', 'n', 'f'], seq!['I', 'N', 'F']) || number::spells(
            s,
            seq!['i', 'n', 'f', 'i', 'n', 'i', 't', 'y'],
            seq!['I', 'N', 'F', 'I', 'N', 'I', 'T', 'Y'],
        ) ==> !below_ten(s) && !below_ten(seq!['+'] + s) && below_ten(seq!['-'] + s),
{
    let t = p.joined();
    lemma_value_of_parts(p);
    number::lemma_no_sign(p);
    assert((seq!['+'] + t).skip(1) == t);
    assert((seq!['-'] + t).skip(1) == t);
    number::lemma_spelled(t);
    let x = p.scale();
    let m = number::digits_value(p.whole + p.fraction);
    lemma_denominator(x);
    law_below_ten_is_exact(numerator(m, x), denominator(x));
    if x >= 0 {
        lemma_pow_positive(10, x as nat);
        let q = pow(10, x as nat);
        assert(m * q >= 0) by (nonlinear_arith)
            requires
                q > 0,
        ;
    } else {
        lemma_pow_positive(10, (-x) as nat);
    }
    lemma_words_alone(s);
    assert((seq!['+'] + s).skip(1) == s);
    assert((seq!['-'] + s).skip(1) == s);
}

} // verus!
