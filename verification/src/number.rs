//! Numbers as tools print them, and as cards do.

use crate::text;
use crate::text::Class;
use vstd::prelude::*;
use vstd::slice::slice_subrange;

verus! {

/// A text made of at least one digit and of nothing else.
pub open spec fn is_digits(s: Seq<char>) -> bool {
    s.len() > 0 && forall|i: int| 0 <= i < s.len() ==> text::is_digit(#[trigger] s[i])
}

/// The text without one leading sign.
pub open spec fn unsigned(s: Seq<char>) -> Seq<char> {
    if s.len() > 0 && (s[0] == '+' || s[0] == '-') {
        s.skip(1)
    } else {
        s
    }
}

/// An exponent: `e` or `E`, an optional sign, and digits.
pub open spec fn is_exponent(s: Seq<char>) -> bool {
    s.len() > 0 && (s[0] == 'e' || s[0] == 'E') && is_digits(unsigned(s.skip(1)))
}

/// How many characters a fraction takes at the start of the text: the dot
/// and the digits behind it.
pub open spec fn fraction_len(s: Seq<char>) -> nat {
    if s.len() > 0 && s[0] == '.' {
        1 + text::leading(s.skip(1), Class::Digit)
    } else {
        0
    }
}

/// A decimal number without a sign: digits with an optional fraction, of
/// which one side of the dot may be empty, and an optional exponent.
pub open spec fn is_decimal(s: Seq<char>) -> bool {
    let whole = text::leading(s, Class::Digit);
    let fraction = fraction_len(s.skip(whole as int));
    let tail = s.skip((whole + fraction) as int);
    &&& whole > 0 || fraction > 1
    &&& tail.len() == 0 || is_exponent(tail)
}

/// Whether `c` is the lower-case letter `l`, in either case.
pub open spec fn is_letter(c: char, l: char) -> bool {
    c == l || ('A' <= c <= 'Z' && c as u32 + 32 == l as u32)
}

/// Whether the text is the lower-case word, in any mix of cases.
pub open spec fn is_word(s: Seq<char>, word: Seq<char>) -> bool {
    s.len() == word.len() && forall|i: int| 0 <= i < s.len() ==> is_letter(#[trigger] s[i], word[i])
}

/// A text that denotes a floating-point number: an optional sign, then a
/// decimal number, an infinity or a NaN.
pub open spec fn is_number(s: Seq<char>) -> bool {
    let body = unsigned(s);
    ||| is_decimal(body)
    ||| is_word(body, "inf"@)
    ||| is_word(body, "infinity"@)
    ||| is_word(body, "nan"@)
}

/// The number that a text of digits denotes.
pub open spec fn digits_value(s: Seq<char>) -> nat
    decreases s.len(),
{
    if s.len() == 0 {
        0
    } else {
        10 * digits_value(s.drop_last()) + digit_value(s.last())
    }
}

/// The number that a digit denotes.
pub open spec fn digit_value(c: char) -> nat {
    (c as u32 - '0' as u32) as nat
}

/// The digit that denotes `d`.
pub open spec fn digit_char(d: nat) -> char {
    ('0' as u32 + d) as char
}

/// The unsigned 32-bit number that the text denotes: digits with an optional
/// plus sign in front.
pub open spec fn parse_u32(s: Seq<char>) -> Option<u32> {
    let digits = if s.len() > 0 && s[0] == '+' {
        s.skip(1)
    } else {
        s
    };
    if is_digits(digits) && digits_value(digits) <= u32::MAX {
        Some(digits_value(digits) as u32)
    } else {
        None
    }
}

/// A number in decimal, without leading zeros.
pub open spec fn decimal(n: nat) -> Seq<char>
    decreases n,
{
    if n < 10 {
        seq![digit_char(n)]
    } else {
        decimal(n / 10).push(digit_char(n % 10))
    }
}

/// Whether the text is made of at least one digit and of nothing else.
pub fn all_digits(s: &[char]) -> (res: bool)
    ensures
        res == is_digits(s@),
{
    proof {
        text::lemma_leading(s@, Class::Digit);
    }
    let n: usize = text::leading_run(s, Class::Digit);
    s.len() > 0 && n == s.len()
}

/// Drops one leading sign.
pub fn without_sign<'a>(s: &'a [char]) -> (res: &'a [char])
    ensures
        res@ == unsigned(s@),
{
    if s.len() > 0 && (s[0] == '+' || s[0] == '-') {
        slice_subrange(s, 1, s.len())
    } else {
        s
    }
}

/// Whether the text is an exponent.
fn all_exponent(s: &[char]) -> (res: bool)
    ensures
        res == is_exponent(s@),
{
    if s.len() > 0 && (s[0] == 'e' || s[0] == 'E') {
        let rest = slice_subrange(s, 1, s.len());
        assert(rest@ == s@.skip(1));
        all_digits(without_sign(rest))
    } else {
        false
    }
}

/// Whether the text is a decimal number without a sign.
pub fn all_decimal(s: &[char]) -> (res: bool)
    ensures
        res == is_decimal(s@),
{
    let whole: usize = text::leading_run(s, Class::Digit);
    let rest = slice_subrange(s, whole, s.len());
    assert(rest@ == s@.skip(whole as int));
    let mut fraction: usize = 0;
    if rest.len() > 0 && rest[0] == '.' {
        let behind = slice_subrange(rest, 1, rest.len());
        assert(behind@ == rest@.skip(1));
        let digits: usize = text::leading_run(behind, Class::Digit);
        fraction = 1 + digits;
    }
    let tail = slice_subrange(rest, fraction, rest.len());
    assert(tail@ == s@.skip(whole + fraction));
    (whole > 0 || fraction > 1) && (tail.len() == 0 || all_exponent(tail))
}

/// Whether the text is the lower-case word, in any mix of cases.
pub fn all_word(s: &[char], word: &str) -> (res: bool)
    ensures
        res == is_word(s@, word@),
{
    let w: Vec<char> = text::chars_of(word);
    if s.len() != w.len() {
        return false;
    }
    let mut i: usize = 0;
    while i < s.len()
        invariant
            i <= s@.len(),
            s@.len() == w@.len(),
            w@ == word@,
            forall|j: int| 0 <= j < i ==> is_letter(#[trigger] s@[j], word@[j]),
        decreases s@.len() - i,
    {
        let c: char = s[i];
        if !(c == w[i] || ('A' <= c && c <= 'Z' && c as u32 + 32 == w[i] as u32)) {
            assert(!is_letter(s@[i as int], word@[i as int]));
            return false;
        }
        i = i + 1;
    }
    true
}

/// Whether the text denotes a floating-point number.
pub fn denotes_number(s: &[char]) -> (res: bool)
    ensures
        res == is_number(s@),
{
    let body = without_sign(s);
    all_decimal(body) || all_word(body, "inf") || all_word(body, "infinity") || all_word(
        body,
        "nan",
    )
}

/// The text of a floating-point number.
///
/// The value is the binary number closest to what the text denotes, which
/// only floating-point code can compute. Until it is needed the text stands
/// for it.
#[derive(Debug, PartialEq, Eq)]
pub struct Number {
    text: String,
}

impl View for Number {
    type V = Seq<char>;

    closed spec fn view(&self) -> Seq<char> {
        self.text@
    }
}

impl Number {
    #[verifier::type_invariant]
    spec fn wf(self) -> bool {
        is_number(self.text@)
    }

    /// Reads a number; `None` unless the whole text denotes one.
    pub fn read(s: &[char]) -> (res: Option<Number>)
        ensures
            res is Some <==> is_number(s@),
            res matches Some(n) ==> n@ == s@,
    {
        if denotes_number(s) {
            let text = text::string_of(s);
            Some(Number { text })
        } else {
            None
        }
    }

    /// The text, which always denotes a number.
    pub fn as_str(&self) -> (res: &str)
        ensures
            res@ == self@,
            is_number(res@),
    {
        proof {
            use_type_invariant(self);
        }
        self.text.as_str()
    }
}

impl Clone for Number {
    fn clone(&self) -> (res: Number)
        ensures
            res@ == self@,
    {
        proof {
            use_type_invariant(self);
        }
        Number { text: self.text.clone() }
    }
}

/// More digits denote no smaller a number.
pub proof fn lemma_digits_value_grows(s: Seq<char>, k: int)
    requires
        0 <= k <= s.len(),
    ensures
        digits_value(s.take(k)) <= digits_value(s),
    decreases s.len(),
{
    if k < s.len() {
        lemma_digits_value_grows(s.drop_last(), k);
        assert(s.drop_last().take(k) == s.take(k));
    } else {
        assert(s.take(k) == s);
    }
}

/// Reads an unsigned 32-bit number.
pub fn read_u32(s: &[char]) -> (res: Option<u32>)
    ensures
        res == parse_u32(s@),
{
    let digits = if s.len() > 0 && s[0] == '+' {
        slice_subrange(s, 1, s.len())
    } else {
        s
    };
    if !all_digits(digits) {
        return None;
    }
    let mut value: u64 = 0;
    let mut i: usize = 0;
    while i < digits.len()
        invariant
            i <= digits@.len(),
            is_digits(digits@),
            value == digits_value(digits@.take(i as int)),
            value <= u32::MAX,
            digits@ == (if s@.len() > 0 && s@[0] == '+' {
                s@.skip(1)
            } else {
                s@
            }),
        decreases digits@.len() - i,
    {
        assert(text::is_digit(digits@[i as int]));
        let digit: u64 = (digits[i] as u32 - '0' as u32) as u64;
        value = value * 10 + digit;
        assert(digits@.take(i + 1).drop_last() == digits@.take(i as int));
        i = i + 1;
        if value > u32::MAX as u64 {
            proof {
                lemma_digits_value_grows(digits@, i as int);
            }
            return None;
        }
    }
    assert(digits@.take(digits@.len() as int) == digits@);
    Some(value as u32)
}

/// Prints a number in decimal.
pub fn print_u64(n: u64) -> (res: String)
    ensures
        res@ == decimal(n as nat),
    decreases n,
{
    let digit: u8 = (n % 10) as u8;
    let mut res = if n < 10 {
        String::new()
    } else {
        print_u64(n / 10)
    };
    res.push((48u8 + digit) as char);
    assert(res@ == decimal(n as nat));
    res
}

/// A number in decimal is made of digits that denote it.
pub proof fn lemma_decimal(n: nat)
    ensures
        is_digits(decimal(n)),
        digits_value(decimal(n)) == n,
    decreases n,
{
    if n < 10 {
        let s = seq![digit_char(n)];
        assert(s.drop_last() == Seq::<char>::empty());
        assert(digits_value(s.drop_last()) == 0);
        assert(s.last() == digit_char(n));
    } else {
        lemma_decimal(n / 10);
        let s = decimal(n / 10).push(digit_char(n % 10));
        assert(s.drop_last() == decimal(n / 10));
    }
}

/// What is printed in decimal reads back as the same number.
pub proof fn law_printed_number_reads_back(n: u32)
    ensures
        parse_u32(decimal(n as nat)) == Some(n),
{
    lemma_decimal(n as nat);
    assert(text::is_digit(decimal(n as nat)[0]));
}

/// A number in decimal begins with a zero only where it is zero.
pub proof fn lemma_no_leading_zero(n: nat)
    ensures
        n > 0 ==> decimal(n)[0] != '0',
        decimal(n).len() > 1 ==> n > 0,
    decreases n,
{
    if n >= 10 {
        lemma_no_leading_zero(n / 10);
        lemma_decimal(n / 10);
        assert(decimal(n)[0] == decimal(n / 10)[0]);
    }
}

/// A number ends in a digit, a dot or a letter of its word.
pub proof fn lemma_number_ends(s: Seq<char>)
    requires
        is_number(s),
    ensures
        s.len() > 0,
        s.last() != 's',
        s[0] != '<',
        s[0] != '*',
{
    let body = unsigned(s);
    reveal_strlit("inf");
    reveal_strlit("infinity");
    reveal_strlit("nan");
    assert(body.len() > 0 ==> body.last() == s.last());
    if is_decimal(body) {
        let whole = text::leading(body, Class::Digit);
        let rest = body.skip(whole as int);
        let fraction = fraction_len(rest);
        let tail = body.skip((whole + fraction) as int);
        text::lemma_leading(body, Class::Digit);
        if rest.len() > 0 {
            text::lemma_leading(rest.skip(1), Class::Digit);
        }
        if whole > 0 {
            assert(Class::Digit.has(body[0]));
        } else {
            assert(rest[0] == body[0]);
        }
        if tail.len() > 0 {
            let digits = unsigned(tail.skip(1));
            assert(is_digit_at_end(digits));
            assert(digits.last() == tail.last());
            assert(tail.last() == body.last());
        } else if fraction == 0 {
            assert(Class::Digit.has(body[whole - 1]));
        } else if fraction == 1 {
            assert(rest[0] == '.');
            assert(body.last() == rest[0]);
        } else {
            let behind = rest.skip(1);
            assert(Class::Digit.has(behind[fraction - 2]));
            assert(body.last() == behind[fraction - 2]);
        }
    } else if is_word(body, "inf"@) {
        assert(is_letter(body[0], 'i') && is_letter(body[2], 'f'));
    } else if is_word(body, "infinity"@) {
        assert(is_letter(body[0], 'i') && is_letter(body[7], 'y'));
    } else {
        assert(is_letter(body[0], 'n') && is_letter(body[2], 'n'));
    }
}

spec fn is_digit_at_end(s: Seq<char>) -> bool {
    s.len() > 0 && text::is_digit(s[s.len() - 1])
}

/// A number begins with a sign, a digit, a dot or a letter of its word.
pub proof fn lemma_number_begins(s: Seq<char>)
    requires
        is_number(s),
    ensures
        s.len() > 0,
        s[0] == '+' || s[0] == '-' || s[0] == '.' || text::is_alphanumeric(s[0]),
{
    let body = unsigned(s);
    reveal_strlit("inf");
    reveal_strlit("infinity");
    reveal_strlit("nan");
    if is_decimal(body) {
        let whole = text::leading(body, Class::Digit);
        text::lemma_leading(body, Class::Digit);
        if whole > 0 {
            assert(Class::Digit.has(body[0]));
        } else {
            assert(body.skip(0) == body);
        }
    } else if is_word(body, "nan"@) {
        assert(is_letter(body[0], 'n'));
    } else {
        assert(is_letter(body[0], 'i'));
    }
}

/// Digits without a leading zero are what their number prints as.
pub proof fn lemma_decimal_of_digits(s: Seq<char>)
    requires
        is_digits(s),
        s.len() > 1 ==> s[0] != '0',
    ensures
        decimal(digits_value(s)) == s,
    decreases s.len(),
{
    let d = s.last();
    assert(text::is_digit(s[s.len() - 1]));
    assert(digit_char(digit_value(d)) == d);
    let shorter = s.drop_last();
    if s.len() == 1 {
        assert(digits_value(shorter) == 0);
        assert(seq![d] == s);
    } else {
        assert forall|i: int| 0 <= i < shorter.len() implies text::is_digit(
            #[trigger] shorter[i],
        ) by {
            assert(shorter[i] == s[i]);
        }
        lemma_decimal_of_digits(shorter);
        assert(digits_value(shorter) > 0) by {
            assert(text::is_digit(s[0]));
            lemma_digits_value_grows(shorter, 1);
            assert(shorter.take(1).drop_last() == Seq::<char>::empty());
            assert(digits_value(shorter.take(1).drop_last()) == 0);
            assert(shorter.take(1).last() == s[0]);
        }
        let n = digits_value(s);
        assert(n / 10 == digits_value(shorter) && n % 10 == digit_value(d));
        assert(decimal(n) == shorter.push(d));
        assert(shorter.push(d) == s);
    }
}

/// The parts of a decimal number without a sign: the digits before and behind
/// the point, and the exponent with its letter, its sign and its digits.
pub struct Parts {
    pub whole: Seq<char>,
    pub point: bool,
    pub fraction: Seq<char>,
    pub exponent: Option<(char, Seq<char>, Seq<char>)>,
}

impl Parts {
    /// The exponent as a text.
    pub open spec fn power(self) -> Seq<char> {
        match self.exponent {
            Some((letter, sign, digits)) => seq![letter] + (sign + digits),
            None => Seq::empty(),
        }
    }

    /// What stands behind the digits before the point.
    pub open spec fn behind(self) -> Seq<char> {
        if self.point {
            seq!['.'] + (self.fraction + self.power())
        } else {
            self.power()
        }
    }

    /// The number as a text.
    pub open spec fn joined(self) -> Seq<char> {
        self.whole + self.behind()
    }

    /// At least one digit, no digits behind a point that is not there, and an
    /// exponent with digits, if any.
    pub open spec fn are_decimal(self) -> bool {
        &&& self.whole.len() + self.fraction.len() > 0
        &&& forall|i: int| 0 <= i < self.whole.len() ==> '0' <= #[trigger] self.whole[i] <= '9'
        &&& forall|i: int|
            0 <= i < self.fraction.len() ==> '0' <= #[trigger] self.fraction[i] <= '9'
        &&& !self.point ==> self.fraction.len() == 0
        &&& self.exponent matches Some((letter, sign, digits)) ==> {
            &&& letter == 'e' || letter == 'E'
            &&& sign == Seq::<char>::empty() || sign == seq!['+'] || sign == seq!['-']
            &&& is_digits(digits)
        }
    }

    /// The power of ten that the digits of the number are multiplied by.
    pub open spec fn scale(self) -> int {
        (match self.exponent {
            Some((_, sign, digits)) => if sign == seq!['-'] {
                -(digits_value(digits) as int)
            } else {
                digits_value(digits) as int
            },
            None => 0,
        }) - self.fraction.len()
    }
}

/// A sign in front of digits is dropped.
proof fn lemma_sign(sign: Seq<char>, digits: Seq<char>)
    requires
        sign == Seq::<char>::empty() || sign == seq!['+'] || sign == seq!['-'],
        is_digits(digits),
    ensures
        unsigned(sign + digits) == digits,
        (sign + digits).len() > 0,
        (sign + digits)[0] == '-' <==> sign == seq!['-'],
{
    assert(text::is_digit(digits[0]));
    if sign.len() == 0 {
        assert(sign + digits == digits);
    } else {
        assert((sign + digits).skip(1) == digits);
        assert(sign[0] == '+' || sign[0] == '-');
        assert(sign[0] == '-' ==> sign == seq!['-']);
    }
}

/// How the parts of a decimal number are found in its text.
pub proof fn lemma_parts(p: Parts)
    requires
        p.are_decimal(),
    ensures
        text::leading(p.joined(), Class::Digit) == p.whole.len(),
        p.joined().take(p.whole.len() as int) == p.whole,
        p.joined().skip(p.whole.len() as int) == p.behind(),
        p.point ==> p.behind().skip(1) == p.fraction + p.power() && text::leading(
            p.fraction + p.power(),
            Class::Digit,
        ) == p.fraction.len(),
        fraction_len(p.behind()) == (if p.point {
            1 + p.fraction.len()
        } else {
            0
        }),
        p.behind().len() > 0 && p.behind()[0] == '.' <==> p.point,
        p.joined().skip((p.whole.len() + fraction_len(p.behind())) as int) == p.power(),
        p.power().len() > 0 ==> is_exponent(p.power()),
{
    let s = p.joined();
    let n = p.whole.len() as int;
    if let Some((letter, sign, digits)) = p.exponent {
        lemma_sign(sign, digits);
        assert(p.power().skip(1) == sign + digits);
        assert(p.power()[0] == letter);
    }
    assert forall|i: int| 0 <= i < n implies Class::Digit.has(#[trigger] s[i]) by {
        assert(s[i] == p.whole[i]);
    }
    if n < s.len() {
        assert(s[n] == p.behind()[0]);
    }
    text::lemma_leading_is(s, Class::Digit, n);
    assert(s.take(n) =~= p.whole);
    assert(s.skip(n) =~= p.behind());
    if p.point {
        let rest = p.fraction + p.power();
        let k = p.fraction.len() as int;
        assert(p.behind().skip(1) =~= rest);
        assert forall|i: int| 0 <= i < k implies Class::Digit.has(#[trigger] rest[i]) by {
            assert(rest[i] == p.fraction[i]);
        }
        if k < rest.len() {
            assert(rest[k] == p.power()[0]);
        }
        text::lemma_leading_is(rest, Class::Digit, k);
    }
    assert(s.skip((n + fraction_len(p.behind())) as int) =~= p.power());
}

/// Digits with or without a point among them, and with or without an exponent
/// of either letter and either sign, are a number; with a sign in front of
/// them too.
pub proof fn law_decimals_are_numbers(p: Parts)
    requires
        p.are_decimal(),
    ensures
        is_number(p.joined()),
        is_number(seq!['+'] + p.joined()),
        is_number(seq!['-'] + p.joined()),
{
    lemma_parts(p);
    let s = p.joined();
    assert(is_decimal(s));
    lemma_no_sign(p);
    assert((seq!['+'] + s).skip(1) == s);
    assert((seq!['-'] + s).skip(1) == s);
}

/// A decimal number without a sign begins with a digit or its point.
pub proof fn lemma_no_sign(p: Parts)
    requires
        p.are_decimal(),
    ensures
        p.joined().len() > 0,
        unsigned(p.joined()) == p.joined(),
        p.joined()[0] == '.' || '0' <= p.joined()[0] <= '9',
{
    if p.whole.len() > 0 {
        assert(p.joined()[0] == p.whole[0]);
    } else {
        assert(p.joined()[0] == '.');
    }
}

/// Every decimal number without a sign is made of such parts.
pub proof fn law_decimals_have_parts(s: Seq<char>)
    requires
        is_decimal(s),
    ensures
        exists|p: Parts| p.are_decimal() && #[trigger] p.joined() == s,
{
    let n = text::leading(s, Class::Digit) as int;
    text::lemma_leading(s, Class::Digit);
    let rest = s.skip(n);
    let k = fraction_len(rest) as int;
    let power = s.skip(n + k);
    let point = rest.len() > 0 && rest[0] == '.';
    let fraction = if point {
        rest.skip(1).take(k - 1)
    } else {
        Seq::empty()
    };
    if point {
        text::lemma_leading(rest.skip(1), Class::Digit);
    }
    let behind = power.skip(1);
    let sign = if behind.len() > 0 && (behind[0] == '+' || behind[0] == '-') {
        seq![behind[0]]
    } else {
        Seq::<char>::empty()
    };
    let exponent = if power.len() > 0 {
        Some((power[0], sign, unsigned(behind)))
    } else {
        None
    };
    let p = Parts { whole: s.take(n), point, fraction, exponent };
    assert forall|i: int| 0 <= i < p.whole.len() implies '0' <= #[trigger] p.whole[i] <= '9' by {
        assert(Class::Digit.has(s[i]));
    }
    assert forall|i: int| 0 <= i < fraction.len() implies '0' <= #[trigger] fraction[i] <= '9' by {
        assert(fraction[i] == rest.skip(1)[i]);
        assert(Class::Digit.has(rest.skip(1)[i]));
    }
    assert(p.power() =~= power) by {
        if power.len() > 0 {
            assert(sign + unsigned(behind) =~= behind);
        }
    }
    assert(p.behind() =~= rest);
    assert(p.joined() =~= s);
    assert(p.are_decimal());
}

/// Whether a text spells a word of the given letters, each in either case.
pub open spec fn spells(s: Seq<char>, lower: Seq<char>, upper: Seq<char>) -> bool {
    s.len() == lower.len() && forall|i: int|
        0 <= i < s.len() ==> #[trigger] s[i] == lower[i] || s[i] == upper[i]
}

/// The words for infinity and for what is not a number are numbers too, in any
/// mix of cases and with either sign.
pub proof fn law_words_are_numbers(s: Seq<char>)
    requires
        spells(s, seq!['i', 'n', 'f'], seq!['I', 'N', 'F']) || spells(
            s,
            seq!['i', 'n', 'f', 'i', 'n', 'i', 't', 'y'],
            seq!['I', 'N', 'F', 'I', 'N', 'I', 'T', 'Y'],
        ) || spells(s, seq!['n', 'a', 'n'], seq!['N', 'A', 'N']),
    ensures
        is_number(s),
        is_number(seq!['+'] + s),
        is_number(seq!['-'] + s),
{
    lemma_spelled(s);
    assert((seq!['+'] + s).skip(1) == s);
    assert((seq!['-'] + s).skip(1) == s);
    assert(s[0] == 'i' || s[0] == 'I' || s[0] == 'n' || s[0] == 'N');
}

/// The words in any mix of cases.
pub proof fn lemma_spelled(s: Seq<char>)
    ensures
        is_word(s, "inf"@) <==> spells(s, seq!['i', 'n', 'f'], seq!['I', 'N', 'F']),
        is_word(s, "infinity"@) <==> spells(
            s,
            seq!['i', 'n', 'f', 'i', 'n', 'i', 't', 'y'],
            seq!['I', 'N', 'F', 'I', 'N', 'I', 'T', 'Y'],
        ),
        is_word(s, "nan"@) <==> spells(s, seq!['n', 'a', 'n'], seq!['N', 'A', 'N']),
{
    reveal_strlit("inf");
    reveal_strlit("infinity");
    reveal_strlit("nan");
    lemma_word_spelled(s, "inf"@, seq!['I', 'N', 'F']);
    lemma_word_spelled(s, "infinity"@, seq!['I', 'N', 'F', 'I', 'N', 'I', 'T', 'Y']);
    lemma_word_spelled(s, "nan"@, seq!['N', 'A', 'N']);
    assert("inf"@ =~= seq!['i', 'n', 'f']);
    assert("infinity"@ =~= seq!['i', 'n', 'f', 'i', 'n', 'i', 't', 'y']);
    assert("nan"@ =~= seq!['n', 'a', 'n']);
}

proof fn lemma_word_spelled(s: Seq<char>, lower: Seq<char>, upper: Seq<char>)
    requires
        lower.len() == upper.len(),
        forall|i: int|
            0 <= i < lower.len() ==> 'A' <= #[trigger] upper[i] <= 'Z' && upper[i] as u32 + 32
                == lower[i] as u32,
    ensures
        is_word(s, lower) <==> spells(s, lower, upper),
{
    assert forall|i: int| 0 <= i < lower.len() && i < s.len() implies is_letter(
        #[trigger] s[i],
        lower[i],
    ) == (s[i] == lower[i] || s[i] == upper[i]) by {
        assert(upper[i] as u32 + 32 == lower[i] as u32);
    }
}

/// Nothing else is a number.
pub proof fn law_numbers_are_nothing_else(s: Seq<char>)
    requires
        is_number(s),
    ensures
        ({
            let body = if s[0] == '+' || s[0] == '-' {
                s.skip(1)
            } else {
                s
            };
            ||| exists|p: Parts| p.are_decimal() && #[trigger] p.joined() == body
            ||| spells(body, seq!['i', 'n', 'f'], seq!['I', 'N', 'F'])
            ||| spells(
                body,
                seq!['i', 'n', 'f', 'i', 'n', 'i', 't', 'y'],
                seq!['I', 'N', 'F', 'I', 'N', 'I', 'T', 'Y'],
            )
            ||| spells(body, seq!['n', 'a', 'n'], seq!['N', 'A', 'N'])
        }),
{
    let body = unsigned(s);
    lemma_spelled(body);
    if is_decimal(body) {
        law_decimals_have_parts(body);
    }
    if s.len() == 0 {
        reveal_strlit("inf");
        reveal_strlit("infinity");
        reveal_strlit("nan");
        assert(text::leading(s, Class::Digit) == 0);
    }
}

/// A whole number is read from digits, with or without a plus sign, that
/// denote it, and from nothing else.
pub proof fn law_whole_numbers(s: Seq<char>, n: u32)
    ensures
        parse_u32(s) == Some(n) <==> exists|d: Seq<char>|
            #[trigger] is_digits(d) && digits_value(d) == n && (s == d || s == seq!['+'] + d),
{
    if parse_u32(s) == Some(n) {
        let d = if s.len() > 0 && s[0] == '+' {
            s.skip(1)
        } else {
            s
        };
        assert(is_digits(d) && digits_value(d) == n);
        assert(s == d || s == seq!['+'] + d);
    }
    if exists|d: Seq<char>|
        #[trigger] is_digits(d) && digits_value(d) == n && (s == d || s == seq!['+'] + d) {
        let d = choose|d: Seq<char>|
            #[trigger] is_digits(d) && digits_value(d) == n && (s == d || s == seq!['+'] + d);
        assert(text::is_digit(d[0]));
        assert((seq!['+'] + d).skip(1) == d);
    }
}

/// The value of digits is that of the digits before the last, ten times, and of
/// the last.
pub proof fn law_value_of_digits(s: Seq<char>, d: nat)
    requires
        d < 10,
    ensures
        digits_value(s + decimal(d)) == 10 * digits_value(s) + d,
        decimal(d).len() == 1,
        digits_value(Seq::empty()) == 0,
{
    assert((s + decimal(d)).drop_last() == s);
}

} // verus!
