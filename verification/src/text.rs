//! Text as a sequence of characters: trimming, splitting and searching.
//!
//! The tools whose output is read here print UTF-8 in any language, so every
//! operation works on characters, never on bytes.

use vstd::prelude::*;
use vstd::slice::slice_subrange;

verus! {

/// `String::push` appends one character to the end of the string.
pub assume_specification[ String::push ](s: &mut String, c: char)
    ensures
        final(s)@ == old(s)@.push(c),
;

/// A class of characters that a run is made of.
#[derive(Clone, Copy, Debug, PartialEq, Eq, Structural)]
pub enum Class {
    /// Unicode white space.
    Space,
    /// Anything but Unicode white space.
    Word,
    /// An ASCII digit.
    Digit,
    /// An ASCII digit or a dot.
    DigitOrDot,
    /// The percent sign.
    Percent,
    /// The dot.
    Dot,
    /// A round bracket, opening or closing.
    Paren,
}

/// The characters with the Unicode property `White_Space`.
pub open spec fn is_space(c: char) -> bool {
    ||| '\u{9}' <= c <= '\u{d}'
    ||| c == ' '
    ||| c == '\u{85}'
    ||| c == '\u{a0}'
    ||| c == '\u{1680}'
    ||| '\u{2000}' <= c <= '\u{200a}'
    ||| c == '\u{2028}'
    ||| c == '\u{2029}'
    ||| c == '\u{202f}'
    ||| c == '\u{205f}'
    ||| c == '\u{3000}'
}

/// The ASCII digits.
pub open spec fn is_digit(c: char) -> bool {
    '0' <= c <= '9'
}

/// The ASCII letters and digits.
pub open spec fn is_alphanumeric(c: char) -> bool {
    is_digit(c) || 'a' <= c <= 'z' || 'A' <= c <= 'Z'
}

impl Class {
    /// Whether `c` belongs to the class.
    pub open spec fn has(self, c: char) -> bool {
        match self {
            Class::Space => is_space(c),
            Class::Word => !is_space(c),
            Class::Digit => is_digit(c),
            Class::DigitOrDot => is_digit(c) || c == '.',
            Class::Percent => c == '%',
            Class::Dot => c == '.',
            Class::Paren => c == '(' || c == ')',
        }
    }

    /// Whether `c` belongs to the class.
    pub fn contains(self, c: char) -> (res: bool)
        ensures
            res == self.has(c),
    {
        match self {
            Class::Space => is_white_space(c),
            Class::Word => !is_white_space(c),
            Class::Digit => is_ascii_digit(c),
            Class::DigitOrDot => is_ascii_digit(c) || c == '.',
            Class::Percent => c == '%',
            Class::Dot => c == '.',
            Class::Paren => c == '(' || c == ')',
        }
    }
}

/// Whether `c` is Unicode white space.
pub fn is_white_space(c: char) -> (res: bool)
    ensures
        res == is_space(c),
{
    ('\u{9}' <= c && c <= '\u{d}') || c == ' ' || c == '\u{85}' || c == '\u{a0}' || c == '\u{1680}'
        || ('\u{2000}' <= c && c <= '\u{200a}') || c == '\u{2028}' || c == '\u{2029}' || c
        == '\u{202f}' || c == '\u{205f}' || c == '\u{3000}'
}

/// Whether `c` is an ASCII digit.
pub fn is_ascii_digit(c: char) -> (res: bool)
    ensures
        res == is_digit(c),
{
    '0' <= c && c <= '9'
}

/// Whether `c` is an ASCII letter or digit.
pub fn is_ascii_alphanumeric(c: char) -> (res: bool)
    ensures
        res == is_alphanumeric(c),
{
    is_ascii_digit(c) || ('a' <= c && c <= 'z') || ('A' <= c && c <= 'Z')
}

/// How many characters of the class the text begins with.
pub open spec fn leading(s: Seq<char>, class: Class) -> nat
    decreases s.len(),
{
    if s.len() > 0 && class.has(s[0]) {
        1 + leading(s.skip(1), class)
    } else {
        0
    }
}

/// How many characters of the class the text ends with.
pub open spec fn trailing(s: Seq<char>, class: Class) -> nat
    decreases s.len(),
{
    if s.len() > 0 && class.has(s.last()) {
        1 + trailing(s.drop_last(), class)
    } else {
        0
    }
}

/// The longest prefix made of the class.
pub open spec fn take_while(s: Seq<char>, class: Class) -> Seq<char> {
    s.take(leading(s, class) as int)
}

/// The text without the characters of the class that it begins with.
pub open spec fn trim_start(s: Seq<char>, class: Class) -> Seq<char> {
    s.skip(leading(s, class) as int)
}

/// The text without the characters of the class that it ends with.
pub open spec fn trim_end(s: Seq<char>, class: Class) -> Seq<char> {
    s.take(s.len() - trailing(s, class))
}

/// The text without the characters of the class at either end.
pub open spec fn trim(s: Seq<char>, class: Class) -> Seq<char> {
    trim_end(trim_start(s, class), class)
}

/// The leading run is bounded by the text, belongs to the class, and ends
/// where the class or the text does.
pub proof fn lemma_leading(s: Seq<char>, class: Class)
    ensures
        leading(s, class) <= s.len(),
        forall|i: int| 0 <= i < leading(s, class) ==> class.has(#[trigger] s[i]),
        leading(s, class) < s.len() ==> !class.has(s[leading(s, class) as int]),
    decreases s.len(),
{
    if s.len() > 0 && class.has(s[0]) {
        let rest = s.skip(1);
        lemma_leading(rest, class);
        assert forall|i: int| 0 <= i < leading(s, class) implies class.has(#[trigger] s[i]) by {
            if i > 0 {
                assert(rest[i - 1] == s[i]);
            }
        }
        if leading(s, class) < s.len() {
            assert(rest[leading(rest, class) as int] == s[leading(s, class) as int]);
        }
    }
}

/// A run of the class that ends where the class or the text does is the
/// leading run.
pub proof fn lemma_leading_is(s: Seq<char>, class: Class, k: int)
    requires
        0 <= k <= s.len(),
        forall|i: int| 0 <= i < k ==> class.has(#[trigger] s[i]),
        k < s.len() ==> !class.has(s[k]),
    ensures
        leading(s, class) == k,
{
    lemma_leading(s, class);
    let n = leading(s, class) as int;
    if n < k {
        assert(class.has(s[n]));
    }
    if k < n {
        assert(class.has(s[k]));
    }
}

/// The trailing run is bounded by the text, belongs to the class, and begins
/// where the class or the text does.
pub proof fn lemma_trailing(s: Seq<char>, class: Class)
    ensures
        trailing(s, class) <= s.len(),
        forall|i: int|
            s.len() - trailing(s, class) <= i < s.len() ==> class.has(#[trigger] s[i]),
        trailing(s, class) < s.len() ==> !class.has(s[s.len() - trailing(s, class) - 1]),
    decreases s.len(),
{
    if s.len() > 0 && class.has(s.last()) {
        let rest = s.drop_last();
        lemma_trailing(rest, class);
        assert forall|i: int| s.len() - trailing(s, class) <= i < s.len() implies class.has(
            #[trigger] s[i],
        ) by {
            if i < s.len() - 1 {
                assert(rest[i] == s[i]);
            }
        }
    }
}

/// A run of the class at the end that begins where the class or the text
/// does is the trailing run.
pub proof fn lemma_trailing_is(s: Seq<char>, class: Class, k: int)
    requires
        0 <= k <= s.len(),
        forall|i: int| s.len() - k <= i < s.len() ==> class.has(#[trigger] s[i]),
        k < s.len() ==> !class.has(s[s.len() - k - 1]),
    ensures
        trailing(s, class) == k,
{
    lemma_trailing(s, class);
    let n = trailing(s, class) as int;
    if n < k {
        assert(class.has(s[s.len() - n - 1]));
    }
    if k < n {
        assert(class.has(s[s.len() - k - 1]));
    }
}

/// The length of the leading run of the class.
pub fn leading_run(s: &[char], class: Class) -> (n: usize)
    ensures
        n == leading(s@, class),
        n <= s@.len(),
{
    let mut n: usize = 0;
    while n < s.len() && class.contains(s[n])
        invariant
            n <= s@.len(),
            forall|i: int| 0 <= i < n ==> class.has(#[trigger] s@[i]),
        decreases s@.len() - n,
    {
        n = n + 1;
    }
    proof {
        lemma_leading_is(s@, class, n as int);
    }
    n
}

/// The longest prefix made of the class.
pub fn prefix_of<'a>(s: &'a [char], class: Class) -> (res: &'a [char])
    ensures
        res@ == take_while(s@, class),
{
    let n: usize = leading_run(s, class);
    slice_subrange(s, 0, n)
}

/// Drops the characters of the class that the text begins with.
pub fn trimmed_start<'a>(s: &'a [char], class: Class) -> (res: &'a [char])
    ensures
        res@ == trim_start(s@, class),
{
    let n: usize = leading_run(s, class);
    slice_subrange(s, n, s.len())
}

/// Drops the characters of the class that the text ends with.
pub fn trimmed_end<'a>(s: &'a [char], class: Class) -> (res: &'a [char])
    ensures
        res@ == trim_end(s@, class),
{
    let mut end: usize = s.len();
    while end > 0 && class.contains(s[end - 1])
        invariant
            end <= s@.len(),
            forall|i: int| end <= i < s@.len() ==> class.has(#[trigger] s@[i]),
        decreases end,
    {
        end = end - 1;
    }
    proof {
        lemma_trailing_is(s@, class, s@.len() - end);
    }
    slice_subrange(s, 0, end)
}

/// Drops the characters of the class at either end.
pub fn trimmed<'a>(s: &'a [char], class: Class) -> (res: &'a [char])
    ensures
        res@ == trim(s@, class),
{
    trimmed_end(trimmed_start(s, class), class)
}

/// The characters of a string.
pub fn chars_of(s: &str) -> (res: Vec<char>)
    ensures
        res@ == s@,
{
    let mut res: Vec<char> = Vec::new();
    for c in it: s.chars()
        invariant
            it.seq() == s@,
            res@ == s@.take(it.index() as int),
    {
        res.push(c);
    }
    assert(s@.take(s@.len() as int) == s@);
    res
}

/// The string of the given characters.
pub fn string_of(s: &[char]) -> (res: String)
    ensures
        res@ == s@,
{
    let mut res = String::new();
    let mut i: usize = 0;
    while i < s.len()
        invariant
            i <= s@.len(),
            res@ == s@.take(i as int),
        decreases s@.len() - i,
    {
        res.push(s[i]);
        i = i + 1;
    }
    assert(s@.take(s@.len() as int) == s@);
    res
}

/// Whether two texts are the same.
pub fn same(a: &[char], b: &[char]) -> (res: bool)
    ensures
        res == (a@ == b@),
{
    if a.len() != b.len() {
        return false;
    }
    let mut i: usize = 0;
    while i < a.len()
        invariant
            i <= a@.len(),
            a@.len() == b@.len(),
            forall|j: int| 0 <= j < i ==> a@[j] == b@[j],
        decreases a@.len() - i,
    {
        if a[i] != b[i] {
            return false;
        }
        i = i + 1;
    }
    assert(a@ =~= b@);
    true
}

/// Whether the pattern stands in the text at the given position.
pub open spec fn occurs_at(s: Seq<char>, pat: Seq<char>, i: int) -> bool {
    0 <= i <= s.len() - pat.len() && s.subrange(i, i + pat.len()) == pat
}

/// Whether the pattern stands anywhere in the text.
pub open spec fn contains(s: Seq<char>, pat: Seq<char>) -> bool {
    exists|i: int| occurs_at(s, pat, i)
}

/// The first position from `from` on at which the pattern stands; the length
/// of the text where there is none.
pub open spec fn find_from(s: Seq<char>, pat: Seq<char>, from: int) -> int
    decreases s.len() - from,
{
    if from >= s.len() || occurs_at(s, pat, from) {
        from
    } else {
        find_from(s, pat, from + 1)
    }
}

/// The first position at which the pattern stands; the length of the text
/// where there is none.
pub open spec fn find(s: Seq<char>, pat: Seq<char>) -> int {
    find_from(s, pat, 0)
}

/// The text before the first occurrence of the pattern; the whole text where
/// there is none.
pub open spec fn before(s: Seq<char>, pat: Seq<char>) -> Seq<char> {
    s.take(find(s, pat))
}

/// The text with the first occurrence of the pattern replaced.
pub open spec fn replace_first(s: Seq<char>, pat: Seq<char>, with: Seq<char>) -> Seq<char> {
    if contains(s, pat) {
        before(s, pat) + with + s.skip(find(s, pat) + pat.len())
    } else {
        s
    }
}

/// The pieces between the occurrences of the pattern, read from the left.
pub open spec fn split(s: Seq<char>, pat: Seq<char>) -> Seq<Seq<char>>
    decreases s.len(),
{
    if pat.len() > 0 && occurs_at(s, pat, find(s, pat)) {
        seq![before(s, pat)] + split(s.skip(find(s, pat) + pat.len()), pat)
    } else {
        seq![s]
    }
}

/// How often the pattern occurs, read from the left and without overlaps.
pub open spec fn count(s: Seq<char>, pat: Seq<char>) -> nat
    decreases s.len(),
{
    if pat.len() > 0 && occurs_at(s, pat, find(s, pat)) {
        1 + count(s.skip(find(s, pat) + pat.len()), pat)
    } else {
        0
    }
}

/// Whether the text ends with the pattern.
pub open spec fn ends_with(s: Seq<char>, pat: Seq<char>) -> bool {
    occurs_at(s, pat, s.len() - pat.len())
}

/// The text without the pattern at its end, taken off as often as it stands
/// there.
pub open spec fn trim_end_pattern(s: Seq<char>, pat: Seq<char>) -> Seq<char>
    decreases s.len(),
{
    if pat.len() > 0 && ends_with(s, pat) {
        trim_end_pattern(s.take(s.len() - pat.len()), pat)
    } else {
        s
    }
}

/// The text behind the last occurrence of the character, if it occurs.
pub open spec fn after_last(s: Seq<char>, c: char) -> Option<Seq<char>>
    decreases s.len(),
{
    if s.len() == 0 {
        None
    } else if s.last() == c {
        Some(Seq::empty())
    } else {
        match after_last(s.drop_last(), c) {
            Some(rest) => Some(rest.push(s.last())),
            None => None,
        }
    }
}

/// A line as it stands before a line feed: without one carriage return.
pub open spec fn without_return(s: Seq<char>) -> Seq<char> {
    if s.len() > 0 && s.last() == '\r' {
        s.drop_last()
    } else {
        s
    }
}

/// The lines of a text. A line ends at a line feed, with or without a
/// carriage return in front of it; the last line needs no ending.
pub open spec fn lines(s: Seq<char>) -> Seq<Seq<char>>
    decreases s.len(),
{
    let i = find(s, seq!['\n']);
    if s.len() == 0 {
        Seq::empty()
    } else if occurs_at(s, seq!['\n'], i) {
        seq![without_return(s.take(i))] + lines(s.skip(i + 1))
    } else {
        seq![s]
    }
}

/// The words of a text: its longest runs without white space.
pub open spec fn words(s: Seq<char>) -> Seq<Seq<char>>
    decreases s.len(),
{
    let t = trim_start(s, Class::Space);
    let n = leading(t, Class::Word) as int;
    if t.len() == 0 {
        Seq::empty()
    } else {
        proof {
            lemma_leading(s, Class::Space);
            lemma_leading(t, Class::Word);
        }
        seq![t.take(n)] + words(t.skip(n))
    }
}

/// The texts that a list of slices holds.
pub open spec fn texts_of(v: Seq<&[char]>) -> Seq<Seq<char>> {
    Seq::new(v.len(), |i: int| v[i]@)
}

/// What `find` returns is the least position at which the pattern stands.
pub proof fn lemma_find_from(s: Seq<char>, pat: Seq<char>, from: int)
    requires
        pat.len() > 0,
        0 <= from <= s.len(),
    ensures
        from <= find_from(s, pat, from) <= s.len(),
        forall|i: int| from <= i < find_from(s, pat, from) ==> !occurs_at(s, pat, i),
        find_from(s, pat, from) < s.len() <==> occurs_at(s, pat, find_from(s, pat, from)),
    decreases s.len() - from,
{
    if from < s.len() && !occurs_at(s, pat, from) {
        lemma_find_from(s, pat, from + 1);
    }
}

/// `find` returns the least position at which the pattern stands, which lies
/// within the text if and only if the text contains the pattern.
pub proof fn lemma_find(s: Seq<char>, pat: Seq<char>)
    requires
        pat.len() > 0,
    ensures
        0 <= find(s, pat) <= s.len(),
        forall|i: int| i < find(s, pat) ==> !occurs_at(s, pat, i),
        occurs_at(s, pat, find(s, pat)) <==> contains(s, pat),
        find(s, pat) < s.len() <==> contains(s, pat),
{
    lemma_find_from(s, pat, 0);
    if contains(s, pat) {
        let i = choose|i: int| occurs_at(s, pat, i);
        assert(i >= find(s, pat));
    }
}

/// A position at which the pattern stands, and before which it does not, is
/// the one that `find` returns.
pub proof fn lemma_find_is(s: Seq<char>, pat: Seq<char>, k: int)
    requires
        pat.len() > 0,
        0 <= k <= s.len(),
        forall|i: int| 0 <= i < k ==> !occurs_at(s, pat, i),
        k < s.len() ==> occurs_at(s, pat, k),
    ensures
        find(s, pat) == k,
{
    lemma_find(s, pat);
}

/// Whether the pattern stands in the text at the given position.
pub fn occurs(s: &[char], pat: &[char], i: usize) -> (res: bool)
    requires
        i <= s@.len(),
    ensures
        res == occurs_at(s@, pat@, i as int),
{
    if s.len() - i < pat.len() {
        return false;
    }
    same(slice_subrange(s, i, i + pat.len()), pat)
}

/// The first position at which the pattern stands; the length of the text
/// where there is none.
pub fn position(s: &[char], pat: &[char]) -> (n: usize)
    requires
        pat@.len() > 0,
    ensures
        n == find(s@, pat@),
        n <= s@.len(),
        n < s@.len() <==> contains(s@, pat@),
        n < s@.len() ==> n + pat@.len() <= s@.len(),
{
    let mut n: usize = 0;
    while n < s.len() && !occurs(s, pat, n)
        invariant
            n <= s@.len(),
            forall|i: int| 0 <= i < n ==> !occurs_at(s@, pat@, i),
        decreases s@.len() - n,
    {
        n = n + 1;
    }
    proof {
        lemma_find_is(s@, pat@, n as int);
        lemma_find(s@, pat@);
    }
    n
}

/// Whether the pattern stands anywhere in the text.
pub fn has_pattern(s: &[char], pat: &str) -> (res: bool)
    requires
        pat@.len() > 0,
    ensures
        res == contains(s@, pat@),
{
    let pat: Vec<char> = chars_of(pat);
    position(s, &pat) < s.len()
}

/// The text before the first occurrence of the pattern; the whole text where
/// there is none.
pub fn head_before<'a>(s: &'a [char], pat: &str) -> (res: &'a [char])
    requires
        pat@.len() > 0,
    ensures
        res@ == before(s@, pat@),
{
    let pat: Vec<char> = chars_of(pat);
    let n: usize = position(s, &pat);
    slice_subrange(s, 0, n)
}

/// Replaces the first occurrence of the pattern.
pub fn replaced(s: &str, pat: &str, with: &str) -> (res: String)
    requires
        pat@.len() > 0,
    ensures
        res@ == replace_first(s@, pat@, with@),
{
    let text: Vec<char> = chars_of(s);
    let pat: Vec<char> = chars_of(pat);
    let n: usize = position(&text, &pat);
    if n < text.len() {
        let mut res = string_of(slice_subrange(text.as_slice(), 0, n));
        res.append(with);
        let rest = string_of(slice_subrange(text.as_slice(), n + pat.len(), text.len()));
        res.append(rest.as_str());
        res
    } else {
        s.to_owned()
    }
}

/// The pieces between the occurrences of the pattern, read from the left.
pub fn pieces<'a>(s: &'a [char], pat: &str) -> (res: Vec<&'a [char]>)
    requires
        pat@.len() > 0,
    ensures
        texts_of(res@) == split(s@, pat@),
{
    let p: Vec<char> = chars_of(pat);
    let mut res: Vec<&'a [char]> = Vec::new();
    let mut rest: &'a [char] = s;
    loop
        invariant
            p@ == pat@,
            pat@.len() > 0,
            texts_of(res@) + split(rest@, pat@) == split(s@, pat@),
        decreases rest@.len(),
    {
        let n: usize = position(rest, &p);
        proof {
            lemma_find(rest@, pat@);
        }
        let ghost seen = texts_of(res@);
        if n >= rest.len() {
            res.push(rest);
            assert(texts_of(res@) == seen + seq![rest@]);
            return res;
        }
        let piece = slice_subrange(rest, 0, n);
        let ghost old_rest = rest@;
        rest = slice_subrange(rest, n + p.len(), rest.len());
        res.push(piece);
        assert(texts_of(res@) == seen + seq![before(old_rest, pat@)]);
        assert(rest@ == old_rest.skip(find(old_rest, pat@) + pat@.len()));
        assert(texts_of(res@) + split(rest@, pat@) == seen + split(old_rest, pat@));
    }
}

/// How often the pattern occurs, read from the left and without overlaps.
pub fn occurrences(s: &[char], pat: &str) -> (n: usize)
    requires
        pat@.len() > 0,
    ensures
        n == count(s@, pat@),
{
    let p: Vec<char> = chars_of(pat);
    let mut rest: &[char] = s;
    let mut n: usize = 0;
    loop
        invariant
            p@ == pat@,
            pat@.len() > 0,
            n + count(rest@, pat@) == count(s@, pat@),
            n + rest@.len() <= s.len(),
        decreases rest@.len(),
    {
        let k: usize = position(rest, &p);
        proof {
            lemma_find(rest@, pat@);
        }
        if k >= rest.len() {
            return n;
        }
        let ghost old_rest = rest@;
        rest = slice_subrange(rest, k + p.len(), rest.len());
        assert(rest@ == old_rest.skip(find(old_rest, pat@) + pat@.len()));
        n = n + 1;
    }
}

/// The text without the pattern at its end, if it ends with the pattern.
pub fn stripped_end<'a>(s: &'a [char], pat: &[char]) -> (res: Option<&'a [char]>)
    ensures
        res is Some <==> ends_with(s@, pat@),
        res matches Some(r) ==> r@ == s@.take(s@.len() - pat@.len()),
{
    if s.len() < pat.len() {
        return None;
    }
    let n: usize = s.len() - pat.len();
    if occurs(s, pat, n) {
        Some(slice_subrange(s, 0, n))
    } else {
        None
    }
}

/// Takes the pattern off the end as often as it stands there.
pub fn trimmed_end_pattern<'a>(s: &'a [char], pat: &str) -> (res: &'a [char])
    requires
        pat@.len() > 0,
    ensures
        res@ == trim_end_pattern(s@, pat@),
{
    let p: Vec<char> = chars_of(pat);
    let mut rest: &'a [char] = s;
    loop
        invariant
            p@ == pat@,
            pat@.len() > 0,
            trim_end_pattern(rest@, pat@) == trim_end_pattern(s@, pat@),
        decreases rest@.len(),
    {
        match stripped_end(rest, &p) {
            Some(shorter) => {
                rest = shorter;
            },
            None => {
                return rest;
            },
        }
    }
}

/// The text behind the last occurrence of the character starts right behind
/// it and holds it no more.
pub proof fn lemma_after_last_is(s: Seq<char>, c: char, k: int)
    requires
        0 <= k < s.len(),
        s[k] == c,
        forall|i: int| k < i < s.len() ==> s[i] != c,
    ensures
        after_last(s, c) == Some(s.skip(k + 1)),
    decreases s.len(),
{
    if k < s.len() - 1 {
        lemma_after_last_is(s.drop_last(), c, k);
        assert(s.drop_last().skip(k + 1).push(s.last()) == s.skip(k + 1));
    } else {
        assert(s.skip(k + 1) == Seq::<char>::empty());
    }
}

/// Behind a character that does not occur there is nothing.
pub proof fn lemma_after_last_none(s: Seq<char>, c: char)
    requires
        !s.contains(c),
    ensures
        after_last(s, c) is None,
    decreases s.len(),
{
    if s.len() > 0 {
        assert(s.contains(s.last()));
        assert forall|i: int| 0 <= i < s.len() - 1 implies s.drop_last()[i] != c by {
            assert(s.contains(s[i]));
        }
        lemma_after_last_none(s.drop_last(), c);
    }
}

/// The text behind the last occurrence of the character, if it occurs.
pub fn tail_after<'a>(s: &'a [char], c: char) -> (res: Option<&'a [char]>)
    ensures
        res is Some <==> after_last(s@, c) is Some,
        res matches Some(r) ==> after_last(s@, c) == Some(r@),
{
    let mut k: usize = s.len();
    while k > 0
        invariant
            k <= s@.len(),
            forall|i: int| k <= i < s@.len() ==> s@[i] != c,
        decreases k,
    {
        k = k - 1;
        if s[k] == c {
            proof {
                lemma_after_last_is(s@, c, k as int);
            }
            return Some(slice_subrange(s, k + 1, s.len()));
        }
    }
    proof {
        lemma_after_last_none(s@, c);
    }
    None
}

/// The lines of a text.
pub fn lines_of<'a>(s: &'a [char]) -> (res: Vec<&'a [char]>)
    ensures
        texts_of(res@) == lines(s@),
{
    let mut feed: Vec<char> = Vec::new();
    feed.push('\n');
    assert(feed@ == seq!['\n']);
    let mut res: Vec<&'a [char]> = Vec::new();
    let mut rest: &'a [char] = s;
    assert(texts_of(res@) == Seq::<Seq<char>>::empty());
    while rest.len() > 0
        invariant
            feed@ == seq!['\n'],
            texts_of(res@) + lines(rest@) == lines(s@),
        decreases rest@.len(),
    {
        let n: usize = position(rest, &feed);
        proof {
            lemma_find(rest@, feed@);
        }
        let ghost seen = texts_of(res@);
        let ghost old_rest = rest@;
        if n < rest.len() {
            let mut end: usize = n;
            if n > 0 && rest[n - 1] == '\r' {
                end = n - 1;
            }
            let line = slice_subrange(rest, 0, end);
            assert(line@ == without_return(old_rest.take(n as int)));
            rest = slice_subrange(rest, n + 1, rest.len());
            res.push(line);
            assert(rest@ == old_rest.skip(n + 1));
            assert(texts_of(res@) == seen + seq![line@]);
            assert(lines(old_rest) == seq![line@] + lines(rest@));
        } else {
            res.push(rest);
            rest = slice_subrange(rest, n, rest.len());
            assert(texts_of(res@) == seen + seq![old_rest]);
            assert(lines(old_rest) == seq![old_rest]);
            assert(lines(rest@) == Seq::<Seq<char>>::empty());
        }
    }
    assert(lines(rest@) == Seq::<Seq<char>>::empty());
    assert(texts_of(res@) + lines(rest@) == texts_of(res@));
    res
}

/// The words of a text.
pub fn words_of<'a>(s: &'a [char]) -> (res: Vec<&'a [char]>)
    ensures
        texts_of(res@) == words(s@),
{
    let mut res: Vec<&'a [char]> = Vec::new();
    let mut rest: &'a [char] = s;
    assert(texts_of(res@) == Seq::<Seq<char>>::empty());
    loop
        invariant
            texts_of(res@) + words(rest@) == words(s@),
        decreases rest@.len(),
    {
        let ghost old_rest = rest@;
        let ghost seen = texts_of(res@);
        let t = trimmed_start(rest, Class::Space);
        proof {
            lemma_leading(old_rest, Class::Space);
            lemma_leading(t@, Class::Word);
        }
        if t.len() == 0 {
            assert(words(old_rest) == Seq::<Seq<char>>::empty());
            assert(texts_of(res@) + words(old_rest) == texts_of(res@));
            return res;
        }
        let n: usize = leading_run(t, Class::Word);
        let word = slice_subrange(t, 0, n);
        rest = slice_subrange(t, n, t.len());
        res.push(word);
        assert(rest@ == t@.skip(n as int));
        assert(texts_of(res@) == seen + seq![word@]);
        assert(words(old_rest) == seq![word@] + words(rest@));
    }
}

/// The texts of a list of strings.
pub open spec fn strings(v: Seq<String>) -> Seq<Seq<char>> {
    Seq::new(v.len(), |i: int| v[i]@)
}

/// The parts with the separator between each two of them.
pub open spec fn join(parts: Seq<Seq<char>>, sep: Seq<char>) -> Seq<char>
    decreases parts.len(),
{
    if parts.len() == 0 {
        Seq::empty()
    } else if parts.len() == 1 {
        parts[0]
    } else {
        parts[0] + sep + join(parts.skip(1), sep)
    }
}

/// Joins the parts with the separator between each two of them.
pub fn joined(parts: &Vec<String>, sep: &str) -> (res: String)
    ensures
        res@ == join(strings(parts@), sep@),
{
    let ghost all = strings(parts@);
    let mut res = String::new();
    if parts.len() == 0 {
        return res;
    }
    res.append(parts[0].as_str());
    let mut i: usize = 1;
    assert(all[0] == parts@[0]@);
    assert(res@ == all[0]);
    while i < parts.len()
        invariant
            1 <= i <= parts@.len(),
            all == strings(parts@),
            i < parts@.len() ==> res@ + sep@ + join(all.skip(i as int), sep@) == join(all, sep@),
            i == parts@.len() ==> res@ == join(all, sep@),
        decreases parts@.len() - i,
    {
        let ghost before_part = res@;
        res.append(sep);
        res.append(parts[i].as_str());
        assert(all.skip(i as int)[0] == parts@[i as int]@);
        assert(all.skip(i as int).skip(1) == all.skip(i + 1));
        i = i + 1;
        if i < parts.len() {
            assert(res@ + sep@ + join(all.skip(i as int), sep@) == before_part + sep@ + join(
                all.skip(i - 1),
                sep@,
            ));
        }
    }
    res
}

/// A character stands first where a text without it ends.
pub proof fn lemma_find_char(a: Seq<char>, c: char, rest: Seq<char>)
    requires
        !a.contains(c),
    ensures
        find(a + seq![c] + rest, seq![c]) == a.len(),
        occurs_at(a + seq![c] + rest, seq![c], a.len() as int),
        find(a, seq![c]) == a.len(),
        !occurs_at(a, seq![c], a.len() as int),
{
    let s = a + seq![c] + rest;
    let n = a.len() as int;
    assert forall|i: int| 0 <= i < n implies !occurs_at(s, seq![c], i) && !occurs_at(
        a,
        seq![c],
        i,
    ) by {
        assert(s[i] == a[i]);
        assert(a.contains(a[i]));
        if occurs_at(s, seq![c], i) {
            assert(s.subrange(i, i + 1)[0] == s[i]);
        }
        if occurs_at(a, seq![c], i) {
            assert(a.subrange(i, i + 1)[0] == a[i]);
        }
    }
    assert(s.subrange(n, n + 1) == seq![c]);
    lemma_find_is(s, seq![c], n);
    lemma_find_is(a, seq![c], n);
}

/// A text without the separator is its only piece.
pub proof fn lemma_split_whole(a: Seq<char>, c: char)
    requires
        !a.contains(c),
    ensures
        split(a, seq![c]) == seq![a],
{
    lemma_find_char(a, c, Seq::empty());
}

/// A text without the separator is the first piece where it stands before one.
pub proof fn lemma_split_head(a: Seq<char>, c: char, rest: Seq<char>)
    requires
        !a.contains(c),
    ensures
        split(a + seq![c] + rest, seq![c]) == seq![a] + split(rest, seq![c]),
{
    let s = a + seq![c] + rest;
    lemma_find_char(a, c, rest);
    assert(s.take(a.len() as int) == a);
    assert(s.skip(a.len() as int + 1) == rest);
}

/// Parts that do not hold the separator come back when the joined text is
/// split.
pub proof fn lemma_split_of_join(parts: Seq<Seq<char>>, c: char)
    requires
        parts.len() > 0,
        forall|i: int| 0 <= i < parts.len() ==> !(#[trigger] parts[i]).contains(c),
    ensures
        split(join(parts, seq![c]), seq![c]) == parts,
    decreases parts.len(),
{
    if parts.len() == 1 {
        lemma_split_whole(parts[0], c);
        assert(parts == seq![parts[0]]);
    } else {
        let rest = parts.skip(1);
        assert forall|i: int| 0 <= i < rest.len() implies !(#[trigger] rest[i]).contains(c) by {
            assert(rest[i] == parts[i + 1]);
        }
        lemma_split_head(parts[0], c, join(rest, seq![c]));
        lemma_split_of_join(rest, c);
        assert(parts == seq![parts[0]] + rest);
    }
}

/// A text without a line feed is the first line where it stands before one.
pub proof fn lemma_first_line(a: Seq<char>, rest: Seq<char>)
    requires
        !a.contains('\n'),
    ensures
        lines(a + seq!['\n'] + rest) == seq![without_return(a)] + lines(rest),
{
    let s = a + seq!['\n'] + rest;
    lemma_find_char(a, '\n', rest);
    assert(s.take(a.len() as int) == a);
    assert(s.skip(a.len() as int + 1) == rest);
}

/// Where a text is cut at the first occurrence of a character.
pub proof fn lemma_cut_at(s: Seq<char>, c: char) -> (i: int)
    requires
        s.contains(c),
    ensures
        0 <= i < s.len(),
        !s.take(i).contains(c),
        s == s.take(i) + seq![c] + s.skip(i + 1),
    decreases s.len(),
{
    if s[0] == c {
        0
    } else {
        let rest = s.skip(1);
        let k = s.index_of(c);
        assert(rest[k - 1] == c);
        let i = lemma_cut_at(rest, c);
        let head = s.take(i + 1);
        assert forall|j: int| 0 <= j < head.len() implies #[trigger] head[j] != c by {
            if j > 0 {
                assert(rest.take(i).contains(rest.take(i)[j - 1]));
                assert(rest.take(i)[j - 1] == s[j]);
            }
        }
        assert(rest[i] == c);
        assert(s =~= s.take(i + 1) + seq![c] + s.skip(i + 2));
        i + 1
    }
}

/// Behind a line feed the lines begin anew.
pub proof fn lemma_lines_joined(a: Seq<char>, b: Seq<char>)
    ensures
        lines(a + seq!['\n'] + b) == lines(a + seq!['\n']) + lines(b),
    decreases a.len(),
{
    let nl = seq!['\n'];
    let none = Seq::<char>::empty();
    if a.contains('\n') {
        let i = lemma_cut_at(a, '\n');
        let x = a.take(i);
        let y = a.skip(i + 1);
        lemma_lines_joined(y, b);
        assert(a + nl + b == x + nl + (y + nl + b));
        assert(a + nl == x + nl + (y + nl));
        lemma_first_line(x, y + nl + b);
        lemma_first_line(x, y + nl);
        assert(lines(a + nl + b) == lines(a + nl) + lines(b));
    } else {
        lemma_first_line(a, b);
        lemma_first_line(a, none);
        assert(a + nl + none == a + nl);
        assert(lines(none) == Seq::<Seq<char>>::empty());
        assert(lines(a + nl) == seq![without_return(a)]);
    }
}

/// Behind nothing, or behind a line feed, the lines begin anew.
proof fn lemma_lines_begin(before: Seq<char>, rest: Seq<char>)
    requires
        before.len() == 0 || before.last() == '\n',
    ensures
        lines(before + rest) == lines(before) + lines(rest),
{
    if before.len() == 0 {
        assert(before + rest == rest);
        assert(lines(before) + lines(rest) == lines(rest));
    } else {
        assert(before == before.drop_last() + seq!['\n']);
        lemma_lines_joined(before.drop_last(), rest);
    }
}

/// A line put between two lines of a text is one more line of it.
pub proof fn lemma_line_between(before: Seq<char>, line: Seq<char>, behind: Seq<char>)
    requires
        before.len() == 0 || before.last() == '\n',
        !line.contains('\n'),
    ensures
        lines(before + behind) == lines(before) + lines(behind),
        lines(before + line + seq!['\n'] + behind) == lines(before).push(without_return(line))
            + lines(behind),
{
    let inner = line + seq!['\n'] + behind;
    let first = lines(before);
    let last = lines(behind);
    let bare = without_return(line);
    lemma_lines_begin(before, behind);
    lemma_lines_begin(before, inner);
    lemma_first_line(line, behind);
    assert(before + line + seq!['\n'] + behind =~= before + inner);
    assert(first + (seq![bare] + last) =~= first.push(bare) + last);
}

/// A line feed at the end adds a blank line behind another one or to nothing,
/// and else only ends the last line.
#[verifier::spinoff_prover]
pub proof fn lemma_lines_closed(a: Seq<char>)
    ensures
        ({
            let open = lines(a);
            let closed = lines(a + seq!['\n']);
            if a.len() == 0 || a.last() == '\n' {
                closed == open.push(Seq::empty())
            } else {
                open.len() > 0 && closed == open.drop_last().push(without_return(open.last()))
            }
        }),
    decreases a.len(),
{
    let nl = seq!['\n'];
    let none = Seq::<char>::empty();
    if a.contains('\n') {
        let i = lemma_cut_at(a, '\n');
        let x = a.take(i);
        let y = a.skip(i + 1);
        lemma_lines_closed(y);
        assert(a + nl == x + nl + (y + nl));
        lemma_first_line(x, y + nl);
        lemma_first_line(x, y);
        let open = lines(a);
        let closed = lines(a + nl);
        assert(open == seq![without_return(x)] + lines(y));
        if y.len() > 0 {
            assert(y.last() == a.last());
        } else {
            assert(a.last() == '\n');
        }
        let first = seq![without_return(x)];
        let last = lines(y);
        assert(closed == first + lines(y + nl));
        if a.last() == '\n' {
            assert(first + last.push(none) =~= (first + last).push(none));
        } else {
            let cut = without_return(last.last());
            assert(open.last() == last.last());
            assert(first + last.drop_last().push(cut) =~= (first + last).drop_last().push(cut));
        }
    } else {
        lemma_first_line(a, none);
        assert(a + nl + none == a + nl);
        assert(lines(none) == Seq::<Seq<char>>::empty());
        assert(lines(a + nl) == seq![without_return(a)]);
        if a.len() > 0 {
            assert(a.contains(a.last()));
            lemma_find_char(a, '\n', none);
            assert(lines(a) == seq![a]);
            assert(seq![a].drop_last().push(without_return(a)) == seq![without_return(a)]);
        } else {
            assert(a == none);
            assert(Seq::<Seq<char>>::empty().push(none) == seq![without_return(a)]);
        }
    }
}

/// A carriage return at the end of a line is white space like any other.
pub proof fn lemma_trim_without_return(s: Seq<char>)
    ensures
        trim(without_return(s), Class::Space) == trim(s, Class::Space),
{
    if s.len() > 0 && s.last() == '\r' {
        let r = s.drop_last();
        let k = leading(r, Class::Space) as int;
        lemma_leading(r, Class::Space);
        assert forall|i: int| 0 <= i < k implies Class::Space.has(#[trigger] s[i]) by {
            assert(r[i] == s[i]);
        }
        if k < r.len() {
            assert(r[k] == s[k]);
            lemma_leading_is(s, Class::Space, k);
            let x = r.skip(k);
            let y = s.skip(k);
            assert(y.drop_last() == x);
            assert(y.last() == '\r');
            lemma_trailing(x, Class::Space);
            assert(y.take(y.len() - trailing(y, Class::Space)) == x.take(
                x.len() - trailing(x, Class::Space),
            ));
        } else {
            lemma_leading_is(s, Class::Space, s.len() as int);
            assert(r.skip(k) == Seq::<char>::empty());
            assert(s.skip(s.len() as int) == Seq::<char>::empty());
        }
    }
}

/// What a trimmed text contains, the text contains.
pub proof fn lemma_trim_contains(s: Seq<char>, class: Class, pat: Seq<char>)
    ensures
        contains(trim(s, class), pat) ==> contains(s, pat),
{
    lemma_leading(s, class);
    let start = trim_start(s, class);
    lemma_trailing(start, class);
    let k = leading(s, class) as int;
    if contains(trim(s, class), pat) {
        let i = choose|i: int| occurs_at(trim(s, class), pat, i);
        assert(s.subrange(k + i, k + i + pat.len()) == trim(s, class).subrange(i, i + pat.len()));
        assert(occurs_at(s, pat, k + i));
    }
}

/// A character that occurs in a text is a pattern that it contains.
pub proof fn lemma_contains_char(s: Seq<char>, c: char)
    ensures
        contains(s, seq![c]) <==> s.contains(c),
{
    if s.contains(c) {
        let i = s.index_of(c);
        assert(s.subrange(i, i + 1) == seq![c]);
        assert(occurs_at(s, seq![c], i));
    }
    if contains(s, seq![c]) {
        let i = choose|i: int| occurs_at(s, seq![c], i);
        assert(s.subrange(i, i + 1)[0] == s[i]);
    }
}

/// Whether a text is a word: it is not empty and holds no white space.
pub open spec fn is_word(w: Seq<char>) -> bool {
    w.len() > 0 && forall|i: int| 0 <= i < w.len() ==> !is_space(#[trigger] w[i])
}

/// The words of a text: a word and white space in front of the rest are that
/// word and the words of the rest, white space in front adds none, and a word
/// alone is the only one.
pub proof fn law_words(w: Seq<char>, c: char, rest: Seq<char>)
    requires
        is_word(w),
        is_space(c),
    ensures
        words(w + seq![c] + rest) == seq![w] + words(rest),
        words(seq![c] + rest) == words(rest),
        words(w) == seq![w],
        words(Seq::empty()) == Seq::<Seq<char>>::empty(),
{
    let s = w + seq![c] + rest;
    let n = w.len() as int;
    assert(!is_space(w[0]));
    assert(s[0] == w[0]);
    lemma_leading_is(s, Class::Space, 0);
    assert(s.skip(0) == s);
    assert forall|i: int| 0 <= i < n implies Class::Word.has(#[trigger] s[i]) by {
        assert(!is_space(w[i]));
    }
    assert(s[n] == c);
    lemma_leading_is(s, Class::Word, n);
    assert(s.take(n) == w);
    let blank = seq![c] + rest;
    assert(s.skip(n) == blank);
    lemma_words_begin(c, rest);
    assert(words(s) == seq![w] + words(blank));
    lemma_leading_is(w, Class::Space, 0);
    assert(w.skip(0) == w);
    assert forall|i: int| 0 <= i < n implies Class::Word.has(#[trigger] w[i]) by {
        assert(!is_space(w[i]));
    }
    lemma_leading_is(w, Class::Word, n);
    assert(w.take(n) == w);
    assert(w.skip(n) == Seq::<char>::empty());
    lemma_no_words();
    assert(seq![w] + Seq::<Seq<char>>::empty() == seq![w]);
}

proof fn lemma_no_words()
    ensures
        words(Seq::empty()) == Seq::<Seq<char>>::empty(),
{
    let none = Seq::<char>::empty();
    assert(none.skip(0) == none);
}

/// White space in front adds no word.
proof fn lemma_words_begin(c: char, rest: Seq<char>)
    requires
        is_space(c),
    ensures
        words(seq![c] + rest) == words(rest),
{
    let s = seq![c] + rest;
    let k = leading(rest, Class::Space) as int;
    lemma_leading(rest, Class::Space);
    assert forall|i: int| 0 <= i < k + 1 implies Class::Space.has(#[trigger] s[i]) by {
        if i > 0 {
            assert(s[i] == rest[i - 1]);
        }
    }
    if k < rest.len() {
        assert(s[k + 1] == rest[k]);
    }
    lemma_leading_is(s, Class::Space, k + 1);
    assert(s.skip(k + 1) == rest.skip(k));
}

/// White space at the end adds no word.
proof fn lemma_words_end(x: Seq<char>, c: char)
    requires
        is_space(c),
    ensures
        words(x.push(c)) == words(x),
    decreases x.len(),
{
    let y = x.push(c);
    let k = leading(x, Class::Space) as int;
    lemma_leading(x, Class::Space);
    let t = x.skip(k);
    assert forall|i: int| 0 <= i < k implies Class::Space.has(#[trigger] y[i]) by {
        assert(y[i] == x[i]);
    }
    if t.len() == 0 {
        lemma_leading_is(y, Class::Space, y.len() as int);
        assert(y.skip(y.len() as int).len() == 0);
    } else {
        assert(y[k] == x[k]);
        lemma_leading_is(y, Class::Space, k);
        let u = y.skip(k);
        assert(u == t.push(c));
        let n = leading(t, Class::Word) as int;
        lemma_leading(t, Class::Word);
        assert forall|i: int| 0 <= i < n implies Class::Word.has(#[trigger] u[i]) by {
            assert(u[i] == t[i]);
        }
        if n < t.len() {
            assert(u[n] == t[n]);
        }
        lemma_leading_is(u, Class::Word, n);
        assert(u.take(n) == t.take(n));
        assert(u.skip(n) == t.skip(n).push(c));
        assert(t[0] == x[k]);
        assert(n > 0) by {
            if n == 0 {
                assert(!Class::Word.has(t[0]));
            }
        }
        lemma_words_end(t.skip(n), c);
    }
}

/// Trimming a text changes none of its words.
pub proof fn law_trimmed_words(s: Seq<char>)
    ensures
        words(trim(s, Class::Space)) == words(s),
{
    let t = trim_start(s, Class::Space);
    lemma_leading(s, Class::Space);
    if t.len() > 0 {
        assert(t[0] == s[leading(s, Class::Space) as int]);
    }
    lemma_leading_is(t, Class::Space, 0);
    assert(t.skip(0) == t);
    assert(words(t) == words(s));
    lemma_words_of_trimmed_end(t);
}

proof fn lemma_words_of_trimmed_end(t: Seq<char>)
    ensures
        words(trim_end(t, Class::Space)) == words(t),
    decreases t.len(),
{
    lemma_trailing(t, Class::Space);
    if t.len() > 0 && is_space(t.last()) {
        let u = t.drop_last();
        lemma_trailing(u, Class::Space);
        lemma_words_of_trimmed_end(u);
        lemma_words_end(u, t.last());
        assert(u.push(t.last()) == t);
        assert(trim_end(t, Class::Space) == trim_end(u, Class::Space));
    } else {
        assert(trim_end(t, Class::Space) == t);
    }
}

/// What stands between characters of a class is what trimming them leaves,
/// where it neither begins nor ends with one.
pub proof fn law_trim(a: Seq<char>, m: Seq<char>, b: Seq<char>, class: Class)
    requires
        forall|i: int| 0 <= i < a.len() ==> class.has(#[trigger] a[i]),
        forall|i: int| 0 <= i < b.len() ==> class.has(#[trigger] b[i]),
        m.len() > 0,
        !class.has(m[0]),
        !class.has(m.last()),
    ensures
        trim(a + m + b, class) == m,
        trim_start(a + m + b, class) == m + b,
        trim_end(a + m + b, class) == a + m,
{
    let s = a + m + b;
    assert forall|i: int| 0 <= i < a.len() implies class.has(#[trigger] s[i]) by {
        assert(s[i] == a[i]);
    }
    assert(s[a.len() as int] == m[0]);
    lemma_leading_is(s, class, a.len() as int);
    assert(s.skip(a.len() as int) == m + b);
    let t = m + b;
    assert forall|i: int| t.len() - b.len() <= i < t.len() implies class.has(#[trigger] t[i]) by {
        assert(t[i] == b[i - m.len()]);
    }
    assert(t[t.len() - b.len() - 1] == m.last());
    lemma_trailing_is(t, class, b.len() as int);
    assert(t.take(m.len() as int) == m);
    assert forall|i: int| s.len() - b.len() <= i < s.len() implies class.has(#[trigger] s[i]) by {
        assert(s[i] == b[i - a.len() - m.len()]);
    }
    assert(s[s.len() - b.len() - 1] == m.last());
    lemma_trailing_is(s, class, b.len() as int);
    assert(s.take((a + m).len() as int) == a + m);
}

/// The first occurrence of a pattern is replaced, and nothing else.
pub proof fn law_replace_first(a: Seq<char>, pat: Seq<char>, b: Seq<char>, with: Seq<char>)
    requires
        pat.len() > 0,
        !a.contains(pat[0]),
    ensures
        replace_first(a + pat + b, pat, with) == a + with + b,
        before(a + pat + b, pat) == a,
        find(a + pat + b, pat) == a.len(),
{
    let s = a + pat + b;
    let n = a.len() as int;
    assert forall|i: int| 0 <= i < n implies !occurs_at(s, pat, i) by {
        if occurs_at(s, pat, i) {
            assert(s.subrange(i, i + pat.len())[0] == a[i]);
            assert(a.contains(a[i]));
        }
    }
    assert(s.subrange(n, n + pat.len()) == pat);
    assert(occurs_at(s, pat, n));
    lemma_find_is(s, pat, n);
    assert(s.take(n) == a);
    assert(s.skip(n + pat.len()) == b);
}

/// A text that holds no line feed and does not end in a carriage return is a
/// line by itself, in front of others and at the end.
pub proof fn law_lines(line: Seq<char>, rest: Seq<char>)
    requires
        !line.contains('\n'),
        line.len() > 0 ==> line.last() != '\r',
    ensures
        lines(line + seq!['\n'] + rest) == seq![line] + lines(rest),
        lines(line + seq!['\r', '\n'] + rest) == seq![line] + lines(rest),
        lines(line) == if line.len() > 0 {
            seq![line]
        } else {
            Seq::empty()
        },
{
    lemma_first_line(line, rest);
    let ended = line.push('\r');
    assert forall|i: int| 0 <= i < ended.len() implies #[trigger] ended[i] != '\n' by {
        if i < line.len() {
            assert(line.contains(line[i]));
        }
    }
    lemma_first_line(ended, rest);
    assert(ended + seq!['\n'] + rest == line + seq!['\r', '\n'] + rest);
    assert(ended.drop_last() == line);
    lemma_find_char(line, '\n', Seq::empty());
}

/// The last part of a joined text stands behind the others and a separator.
pub proof fn lemma_join_last(parts: Seq<Seq<char>>, sep: Seq<char>)
    requires
        parts.len() > 1,
    ensures
        join(parts, sep) == join(parts.drop_last(), sep) + sep + parts.last(),
    decreases parts.len(),
{
    let rest = parts.skip(1);
    let head = parts.drop_last();
    assert(head[0] == parts[0]);
    if parts.len() == 2 {
        assert(rest == seq![parts[1]]);
        assert(join(rest, sep) == parts[1]);
        assert(join(head, sep) == parts[0]);
    } else {
        lemma_join_last(rest, sep);
        assert(rest.drop_last() == head.skip(1));
        assert(rest.last() == parts.last());
        assert(join(parts, sep) == parts[0] + sep + (join(head.skip(1), sep) + sep + parts.last()));
        assert(join(head, sep) == parts[0] + sep + join(head.skip(1), sep));
        assert(join(parts, sep) =~= join(head, sep) + sep + parts.last());
    }
}

/// The pieces of a text joined by the separator are the text.
pub proof fn lemma_join_of_split(s: Seq<char>, c: char)
    ensures
        join(split(s, seq![c]), seq![c]) == s,
        split(s, seq![c]).len() > 0,
    decreases s.len(),
{
    if s.contains(c) {
        let k = lemma_cut_at(s, c);
        let head = s.take(k);
        let rest = s.skip(k + 1);
        lemma_split_head(head, c, rest);
        lemma_join_of_split(rest, c);
        let parts = seq![head] + split(rest, seq![c]);
        assert(parts.skip(1) == split(rest, seq![c]));
        assert(parts.len() > 1);
    } else {
        lemma_split_whole(s, c);
    }
}

/// The words of two texts with white space between them are the words of the
/// first and then those of the second.
pub proof fn law_words_of_both(x: Seq<char>, c: char, y: Seq<char>)
    requires
        is_space(c),
    ensures
        words(x + seq![c] + y) == words(x) + words(y),
    decreases x.len(),
{
    let s = x + seq![c] + y;
    if x.len() == 0 {
        assert(s == seq![c] + y);
        lemma_words_begin(c, y);
        lemma_no_words();
        assert(x == Seq::<char>::empty());
        assert(words(x) + words(y) == words(y));
    } else if is_space(x[0]) {
        let rest = x.skip(1);
        law_words_of_both(rest, c, y);
        lemma_words_begin(x[0], rest);
        lemma_words_begin(x[0], rest + seq![c] + y);
        assert(seq![x[0]] + rest == x);
        assert(seq![x[0]] + (rest + seq![c] + y) == s);
    } else {
        let n = leading(x, Class::Word) as int;
        lemma_leading(x, Class::Word);
        let w = x.take(n);
        let rest = x.skip(n);
        assert(n > 0) by {
            if n == 0 {
                assert(!Class::Word.has(x[0]));
            }
        }
        assert forall|i: int| 0 <= i < w.len() implies !is_space(#[trigger] w[i]) by {
            assert(Class::Word.has(x[i]));
        }
        if rest.len() == 0 {
            assert(w == x);
            law_words(w, c, y);
        } else {
            let d = rest[0];
            assert(!Class::Word.has(x[n]));
            let behind = rest.skip(1);
            law_words_of_both(behind, c, y);
            law_words(w, d, behind);
            law_words(w, d, behind + seq![c] + y);
            assert(w + seq![d] + behind == x);
            assert(w + seq![d] + (behind + seq![c] + y) == s);
            assert(seq![w] + (words(behind) + words(y)) == seq![w] + words(behind) + words(y));
        }
    }
}

/// A pattern that is two different characters occurs once more in front of
/// whatever stands behind one of its occurrences.
pub proof fn lemma_count_grows(x: Seq<char>, pat: Seq<char>, y: Seq<char>)
    requires
        pat.len() == 2,
        pat[0] != pat[1],
    ensures
        count(x + pat + y, pat) >= 1 + count(y, pat),
    decreases x.len(),
{
    let s = x + pat + y;
    let n = x.len() as int;
    assert(s.subrange(n, n + 2) == pat);
    assert(occurs_at(s, pat, n));
    lemma_find(s, pat);
    let f = find(s, pat);
    assert(f <= n) by {
        if f > n {
            assert(!occurs_at(s, pat, n));
        }
    }
    if f == n {
        assert(s.skip(n + 2) == y);
    } else {
        assert(s.subrange(f, f + 2)[1] == s[f + 1]);
        assert(f + 1 != n) by {
            if f + 1 == n {
                assert(s[n] == pat[0]);
            }
        }
        let rest = x.skip(f + 2);
        assert(s.skip(f + 2) == rest + pat + y);
        lemma_count_grows(rest, pat, y);
    }
}

/// Taking a pattern off the end takes off each one that stands there.
pub proof fn law_trim_end_pattern(s: Seq<char>, pat: Seq<char>)
    requires
        pat.len() > 0,
        s.len() == 0 || s.last() != pat.last(),
    ensures
        trim_end_pattern(s + pat, pat) == s,
        trim_end_pattern(s, pat) == s,
{
    let t = s + pat;
    assert(t.subrange(t.len() - pat.len(), t.len() as int) == pat);
    assert(t.take(t.len() - pat.len()) == s);
    assert(!ends_with(s, pat)) by {
        if ends_with(s, pat) {
            assert(s.subrange(s.len() - pat.len(), s.len() as int).last() == s.last());
        }
    }
    assert(trim_end_pattern(s, pat) == s);
    assert(ends_with(t, pat));
}

/// Which characters the classes hold, by their code points: white space is what
/// Unicode calls so, and digits, letters and signs are those of ASCII.
pub proof fn law_classes(c: char)
    ensures
        ({
            let n = c as u32;
            &&& is_space(c) <==> 9 <= n <= 13 || n == 32 || n == 133 || n == 160 || n == 5760 || (
            8192 <= n <= 8202) || n == 8232 || n == 8233 || n == 8239 || n == 8287 || n == 12288
            &&& is_digit(c) <==> 48 <= n <= 57
            &&& is_alphanumeric(c) <==> 48 <= n <= 57 || 65 <= n <= 90 || 97 <= n <= 122
            &&& Class::Space.has(c) <==> is_space(c)
            &&& Class::Word.has(c) <==> !is_space(c)
            &&& Class::Digit.has(c) <==> is_digit(c)
            &&& Class::DigitOrDot.has(c) <==> 48 <= n <= 57 || n == 46
            &&& Class::Percent.has(c) <==> n == 37
            &&& Class::Dot.has(c) <==> n == 46
            &&& Class::Paren.has(c) <==> n == 40 || n == 41
        }),
{
}

/// Of the carriage returns at the end of a line only the one in front of its
/// line feed is dropped.
pub proof fn law_carriage_returns(line: Seq<char>, rest: Seq<char>)
    requires
        !line.contains('\n'),
    ensures
        lines(line + seq!['\r', '\n'] + rest) == seq![line] + lines(rest),
        line.len() > 0 ==> lines(line) == seq![line],
{
    let ended = line.push('\r');
    assert forall|i: int| 0 <= i < ended.len() implies #[trigger] ended[i] != '\n' by {
        if i < line.len() {
            assert(line.contains(line[i]));
        }
    }
    lemma_first_line(ended, rest);
    assert(ended + seq!['\n'] + rest == line + seq!['\r', '\n'] + rest);
    assert(ended.drop_last() == line);
    if occurs_at(line, seq!['\n'], find(line, seq!['\n'])) {
        let i = find(line, seq!['\n']);
        assert(line.subrange(i, i + 1)[0] == line[i]);
        assert(line.contains(line[i]));
    }
}

/// Taking a pattern off the end takes it off as often as it stands there.
pub proof fn law_pattern_is_taken_off_again(s: Seq<char>, pat: Seq<char>)
    requires
        pat.len() > 0,
    ensures
        trim_end_pattern(s + pat, pat) == trim_end_pattern(s, pat),
{
    let t = s + pat;
    assert(t.subrange(t.len() - pat.len(), t.len() as int) == pat);
    assert(t.take(t.len() - pat.len()) == s);
}

} // verus!
