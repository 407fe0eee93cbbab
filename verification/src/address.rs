//! Addresses: the literals that a traceroute prints, and the labels under
//! which a blocklist is asked about an address.

use crate::number;
use crate::text;
use crate::text::Class;
use vstd::prelude::*;
use vstd::slice::slice_subrange;

verus! {

/// An Internet address.
#[derive(Clone, Copy, Debug, PartialEq, Eq)]
pub enum IpAddress {
    V4([u8; 4]),
    V6([u8; 16]),
}

/// One part of a dotted IPv4 literal: one to three digits without a leading
/// zero that denote at most 255.
pub open spec fn is_octet(s: Seq<char>) -> bool {
    &&& number::is_digits(s)
    &&& s.len() <= 3
    &&& s.len() > 1 ==> s[0] != '0'
    &&& number::digits_value(s) <= 255
}

/// A dotted IPv4 literal.
pub open spec fn is_ipv4(s: Seq<char>) -> bool {
    let parts = text::split(s, "."@);
    parts.len() == 4 && forall|i: int| 0 <= i < 4 ==> is_octet(#[trigger] parts[i])
}

/// The hexadecimal digits.
pub open spec fn is_hex_digit(c: char) -> bool {
    text::is_digit(c) || 'a' <= c <= 'f' || 'A' <= c <= 'F'
}

/// One part of an IPv6 literal: one to four hexadecimal digits.
pub open spec fn is_hex_group(s: Seq<char>) -> bool {
    1 <= s.len() <= 4 && forall|i: int| 0 <= i < s.len() ==> is_hex_digit(#[trigger] s[i])
}

/// Whether the first `n` parts are hexadecimal groups.
pub open spec fn hex_groups(parts: Seq<Seq<char>>, n: int) -> bool {
    forall|i: int| 0 <= i < n ==> is_hex_group(#[trigger] parts[i])
}

/// How many 16-bit groups a list of parts between colons denotes. An IPv4
/// literal stands for two groups, and only the last part can be one.
pub open spec fn group_count(s: Seq<char>) -> Option<nat> {
    let parts = text::split(s, ":"@);
    if s.len() == 0 {
        Some(0)
    } else if hex_groups(parts, parts.len() as int) {
        Some(parts.len())
    } else if hex_groups(parts, parts.len() - 1) && is_ipv4(parts.last()) {
        Some(parts.len() + 1)
    } else {
        None
    }
}

/// Whether a list of parts between colons ends in an IPv4 literal.
pub open spec fn ends_in_ipv4(s: Seq<char>) -> bool {
    is_ipv4(text::split(s, ":"@).last())
}

/// An IPv6 literal: eight groups, or fewer with one `::` that stands for at
/// least one group of zeros. An IPv4 literal can only stand at the very end.
pub open spec fn is_ipv6(s: Seq<char>) -> bool {
    if text::contains(s, "::"@) {
        let head = text::before(s, "::"@);
        let tail = s.skip(head.len() as int + 2);
        match (group_count(head), group_count(tail)) {
            (Some(h), Some(t)) => h + t <= 7 && !ends_in_ipv4(head),
            _ => false,
        }
    } else {
        group_count(s) == Some(8nat)
    }
}

/// An IP literal of either family.
pub open spec fn is_ip(s: Seq<char>) -> bool {
    is_ipv4(s) || is_ipv6(s)
}

/// The characters that occur in the name of a router.
pub open spec fn is_name_char(c: char) -> bool {
    text::is_alphanumeric(c) || c == '.' || c == '-' || c == '_' || c == ':'
}

/// A label that could be a top-level domain: at least two letters or digits,
/// and not digits alone.
pub open spec fn could_be_tld(label: Seq<char>) -> bool {
    &&& label.len() >= 2
    &&& forall|i: int| 0 <= i < label.len() ==> text::is_alphanumeric(#[trigger] label[i])
    &&& exists|i: int| 0 <= i < label.len() && !text::is_digit(#[trigger] label[i])
}

/// A name of at least two labels, of which the last could be a top-level
/// domain.
pub open spec fn is_qualified_name(s: Seq<char>) -> bool {
    &&& forall|i: int| 0 <= i < s.len() ==> is_name_char(#[trigger] s[i])
    &&& text::after_last(s, '.') matches Some(tld) && could_be_tld(tld)
}

/// Whether a token is a router address rather than part of a sentence.
pub open spec fn is_address(token: Seq<char>) -> bool {
    let bare = text::trim_end(token, Class::Dot);
    bare.len() > 0 && (is_ip(bare) || is_qualified_name(bare))
}

/// Whether the text is one part of a dotted IPv4 literal.
fn octet(s: &[char]) -> (res: bool)
    ensures
        res == is_octet(s@),
{
    if s.len() > 3 || !number::all_digits(s) || (s.len() > 1 && s[0] == '0') {
        return false;
    }
    assert(text::is_digit(s@[0]));
    match number::read_u32(s) {
        Some(n) => n <= 255,
        None => false,
    }
}

/// Whether the text is a dotted IPv4 literal.
pub fn ipv4_literal(s: &[char]) -> (res: bool)
    ensures
        res == is_ipv4(s@),
{
    proof {
        reveal_strlit(".");
    }
    let parts = text::pieces(s, ".");
    let ghost model = text::texts_of(parts@);
    assert(model.len() == parts@.len());
    if parts.len() != 4 {
        return false;
    }
    let mut i: usize = 0;
    while i < 4
        invariant
            i <= 4,
            parts@.len() == 4,
            model == text::texts_of(parts@),
            model == text::split(s@, "."@),
            forall|j: int| 0 <= j < i ==> is_octet(#[trigger] model[j]),
        decreases 4 - i,
    {
        assert(model[i as int] == parts@[i as int]@);
        if !octet(parts[i]) {
            return false;
        }
        i = i + 1;
    }
    true
}

/// Whether the text is one hexadecimal group of an IPv6 literal.
fn hex_group(s: &[char]) -> (res: bool)
    ensures
        res == is_hex_group(s@),
{
    if s.len() < 1 || s.len() > 4 {
        return false;
    }
    let mut i: usize = 0;
    while i < s.len()
        invariant
            i <= s@.len(),
            forall|j: int| 0 <= j < i ==> is_hex_digit(#[trigger] s@[j]),
        decreases s@.len() - i,
    {
        let c: char = s[i];
        if !(text::is_ascii_digit(c) || ('a' <= c && c <= 'f') || ('A' <= c && c <= 'F')) {
            assert(!is_hex_digit(s@[i as int]));
            return false;
        }
        i = i + 1;
    }
    true
}

/// How many of the parts, from the first on, are hexadecimal groups.
fn hex_run(parts: &Vec<&[char]>) -> (n: usize)
    ensures
        n <= parts@.len(),
        hex_groups(text::texts_of(parts@), n as int),
        n < parts@.len() ==> !is_hex_group(text::texts_of(parts@)[n as int]),
{
    let mut n: usize = 0;
    while n < parts.len()
        invariant
            n <= parts@.len(),
            hex_groups(text::texts_of(parts@), n as int),
        decreases parts@.len() - n,
    {
        if !hex_group(parts[n]) {
            return n;
        }
        n = n + 1;
    }
    n
}

/// How many 16-bit groups a list of parts between colons denotes, counted up
/// to nine, and whether its last part is an IPv4 literal.
fn read_groups(s: &[char]) -> (res: Option<(usize, bool)>)
    ensures
        res is Some <==> group_count(s@) is Some,
        res matches Some((n, v4)) ==> {
            &&& n == (if group_count(s@)->0 < 9 {
                group_count(s@)->0
            } else {
                9
            })
            &&& v4 == ends_in_ipv4(s@)
        },
{
    proof {
        reveal_strlit(":");
    }
    let parts = text::pieces(s, ":");
    let ghost model = text::texts_of(parts@);
    let count: usize = parts.len();
    assert(model.len() == count);
    assert(model.last() == parts@[count - 1]@);
    let v4 = ipv4_literal(parts[count - 1]);
    if s.len() == 0 {
        return Some((0, v4));
    }
    let hex: usize = hex_run(&parts);
    let capped: usize = if count < 9 {
        count
    } else {
        9
    };
    if hex == count {
        return Some((capped, v4));
    }
    assert(!is_hex_group(model[hex as int]));
    if hex == count - 1 && v4 {
        Some((if capped < 9 {
            capped + 1
        } else {
            9
        }, true))
    } else {
        None
    }
}

/// Whether the text is an IPv6 literal.
pub fn ipv6_literal(s: &[char]) -> (res: bool)
    ensures
        res == is_ipv6(s@),
{
    proof {
        reveal_strlit("::");
    }
    let gap: Vec<char> = text::chars_of("::");
    let at: usize = text::position(s, &gap);
    if at < s.len() {
        let head = slice_subrange(s, 0, at);
        let tail = slice_subrange(s, at + 2, s.len());
        assert(tail@ == s@.skip(at + 2));
        match (read_groups(head), read_groups(tail)) {
            (Some((h, v4)), Some((t, _))) => h + t <= 7 && !v4,
            _ => false,
        }
    } else {
        match read_groups(s) {
            Some((n, _)) => n == 8,
            None => false,
        }
    }
}

/// Whether the text is an IP literal of either family.
pub fn ip_literal(s: &[char]) -> (res: bool)
    ensures
        res == is_ip(s@),
{
    ipv4_literal(s) || ipv6_literal(s)
}

/// Whether every character of the text is an ASCII letter or digit.
fn all_alphanumeric(s: &[char]) -> (res: bool)
    ensures
        res == (forall|i: int| 0 <= i < s@.len() ==> text::is_alphanumeric(#[trigger] s@[i])),
{
    let mut i: usize = 0;
    while i < s.len()
        invariant
            i <= s@.len(),
            forall|j: int| 0 <= j < i ==> text::is_alphanumeric(#[trigger] s@[j]),
        decreases s@.len() - i,
    {
        if !text::is_ascii_alphanumeric(s[i]) {
            assert(!text::is_alphanumeric(s@[i as int]));
            return false;
        }
        i = i + 1;
    }
    true
}

/// Whether every character of the text occurs in the names of routers.
fn all_name_chars(s: &[char]) -> (res: bool)
    ensures
        res == (forall|i: int| 0 <= i < s@.len() ==> is_name_char(#[trigger] s@[i])),
{
    let mut i: usize = 0;
    while i < s.len()
        invariant
            i <= s@.len(),
            forall|j: int| 0 <= j < i ==> is_name_char(#[trigger] s@[j]),
        decreases s@.len() - i,
    {
        let c: char = s[i];
        if !(text::is_ascii_alphanumeric(c) || c == '.' || c == '-' || c == '_' || c == ':') {
            assert(!is_name_char(s@[i as int]));
            return false;
        }
        i = i + 1;
    }
    true
}

/// Whether a token is a router address rather than part of a sentence. An IP
/// literal always is; a name has to carry a dot and end in a label that could
/// be a TLD, which is what keeps `out.` (the tail of `Request timed out.`)
/// from being read as a host.
pub fn looks_like_address(token: &[char]) -> (res: bool)
    ensures
        res == is_address(token@),
{
    let bare = text::trimmed_end(token, Class::Dot);
    if bare.len() == 0 {
        return false;
    }
    if ip_literal(bare) {
        return true;
    }
    if !all_name_chars(bare) {
        return false;
    }
    // A single label is a bare word, not a host: traceroute never prints an
    // unqualified name in the address column.
    match text::tail_after(bare, '.') {
        Some(tld) => tld.len() >= 2 && all_alphanumeric(tld) && !number::all_digits(tld),
        None => false,
    }
}

/// The digit that denotes a value below sixteen in hexadecimal.
pub open spec fn hex_char(d: nat) -> char {
    if d < 10 {
        number::digit_char(d)
    } else {
        ('a' as u32 + d - 10) as char
    }
}

/// The labels of an address, least significant first: the octets of an IPv4
/// address in decimal, the nibbles of an IPv6 address in hexadecimal.
pub open spec fn labels_of(ip: IpAddress) -> Seq<Seq<char>> {
    match ip {
        IpAddress::V4(octets) => Seq::new(4, |i: int| number::decimal(octets[3 - i] as nat)),
        IpAddress::V6(octets) => Seq::new(
            32,
            |i: int|
                seq![
                    hex_char(
                        if i % 2 == 0 {
                            octets[15 - i / 2] as nat % 16
                        } else {
                            octets[15 - i / 2] as nat / 16
                        },
                    ),
                ],
        ),
    }
}

/// Prints a value below sixteen in hexadecimal.
fn hex_label(d: u8) -> (res: String)
    requires
        d < 16,
    ensures
        res@ == seq![hex_char(d as nat)],
{
    let mut res = String::new();
    if d < 10 {
        res.push((48u8 + d) as char);
    } else {
        res.push((97u8 + (d - 10)) as char);
    }
    res
}

/// The address reversed into labels, as it is spelled in a zone's name.
pub fn reversed_labels(ip: &IpAddress) -> (res: String)
    ensures
        res@ == text::join(labels_of(*ip), "."@),
{
    let mut labels: Vec<String> = Vec::new();
    match ip {
        IpAddress::V4(octets) => {
            let mut i: usize = 0;
            while i < 4
                invariant
                    i <= 4,
                    *ip == IpAddress::V4(*octets),
                    labels@.len() == i,
                    forall|j: int| 0 <= j < i ==> #[trigger] labels@[j]@ == labels_of(*ip)[j],
                decreases 4 - i,
            {
                labels.push(number::print_u64(octets[3 - i] as u64));
                i = i + 1;
            }
        },
        IpAddress::V6(octets) => {
            let mut i: usize = 0;
            while i < 16
                invariant
                    i <= 16,
                    *ip == IpAddress::V6(*octets),
                    labels@.len() == 2 * i,
                    forall|j: int| 0 <= j < 2 * i ==> #[trigger] labels@[j]@ == labels_of(*ip)[j],
                decreases 16 - i,
            {
                let octet: u8 = octets[15 - i];
                labels.push(hex_label(octet % 16));
                labels.push(hex_label(octet / 16));
                i = i + 1;
            }
        },
    }
    assert(text::strings(labels@) == labels_of(*ip));
    text::joined(&labels, ".")
}

/// A label holds no dot.
proof fn lemma_label_has_no_dot(ip: IpAddress, i: int)
    requires
        0 <= i < labels_of(ip).len(),
    ensures
        !labels_of(ip)[i].contains('.'),
{
    match ip {
        IpAddress::V4(octets) => {
            let n = octets[3 - i] as nat;
            number::lemma_decimal(n);
            let label = number::decimal(n);
            assert forall|k: int| 0 <= k < label.len() implies label[k] != '.' by {
                assert(text::is_digit(label[k]));
            }
        },
        IpAddress::V6(_) => {},
    }
}

/// The labels come back when the name that they make is split at its dots.
pub proof fn lemma_labels_split(ip: IpAddress)
    ensures
        text::split(text::join(labels_of(ip), "."@), "."@) == labels_of(ip),
{
    reveal_strlit(".");
    assert("."@ == seq!['.']);
    let labels = labels_of(ip);
    assert forall|i: int| 0 <= i < labels.len() implies !(#[trigger] labels[i]).contains('.') by {
        lemma_label_has_no_dot(ip, i);
    }
    text::lemma_split_of_join(labels, '.');
}

/// The labels tell the address.
pub proof fn lemma_labels_tell(a: IpAddress, b: IpAddress)
    requires
        labels_of(a) == labels_of(b),
    ensures
        a == b,
{
    assert(labels_of(a).len() == labels_of(b).len());
    match (a, b) {
        (IpAddress::V4(x), IpAddress::V4(y)) => {
            assert forall|i: int| 0 <= i < 4 implies x@[i] == y@[i] by {
                assert(labels_of(a)[3 - i] == labels_of(b)[3 - i]);
                number::lemma_decimal(x@[i] as nat);
                number::lemma_decimal(y@[i] as nat);
            }
            assert(x =~= y);
        },
        (IpAddress::V6(x), IpAddress::V6(y)) => {
            assert forall|i: int| 0 <= i < 16 implies x@[i] == y@[i] by {
                let k = 15 - i;
                assert(labels_of(a)[2 * k] == labels_of(b)[2 * k]);
                assert(labels_of(a)[2 * k + 1] == labels_of(b)[2 * k + 1]);
                let low = hex_char(x@[i] as nat % 16);
                let high = hex_char(x@[i] as nat / 16);
                assert(labels_of(a)[2 * k][0] == low);
                assert(labels_of(b)[2 * k][0] == hex_char(y@[i] as nat % 16));
                assert(labels_of(a)[2 * k + 1][0] == high);
                assert(labels_of(b)[2 * k + 1][0] == hex_char(y@[i] as nat / 16));
            }
            assert(x =~= y);
        },
        (IpAddress::V4(_), IpAddress::V6(_)) => {
            assert(labels_of(a).len() == 4 && labels_of(b).len() == 32);
        },
        (IpAddress::V6(_), IpAddress::V4(_)) => {
            assert(labels_of(a).len() == 32 && labels_of(b).len() == 4);
        },
    }
}

/// A reversed address has four labels or thirty-two, and each of the latter
/// is one hexadecimal digit.
pub proof fn law_label_counts(ip: IpAddress)
    ensures
        ({
            let labels = text::split(text::join(labels_of(ip), "."@), "."@);
            &&& ip is V4 ==> labels.len() == 4
            &&& ip is V6 ==> labels.len() == 32 && forall|i: int|
                0 <= i < 32 ==> is_hex_group(#[trigger] labels[i]) && labels[i].len() == 1
        }),
{
    lemma_labels_split(ip);
}

/// The last piece of a text ends it.
proof fn lemma_last_piece_ends(s: Seq<char>, pat: Seq<char>)
    ensures
        text::split(s, pat).len() > 0,
        text::split(s, pat).last().len() > 0 ==> s.len() > 0 && s.last() == text::split(
            s,
            pat,
        ).last().last(),
    decreases s.len(),
{
    if pat.len() > 0 && text::occurs_at(s, pat, text::find(s, pat)) {
        let rest = s.skip(text::find(s, pat) + pat.len());
        lemma_last_piece_ends(rest, pat);
        assert(text::split(s, pat).last() == text::split(rest, pat).last());
    }
}

proof fn lemma_ipv4_ends_in_digit(s: Seq<char>)
    requires
        is_ipv4(s),
    ensures
        s.len() > 0,
        text::is_digit(s.last()),
{
    let parts = text::split(s, "."@);
    lemma_last_piece_ends(s, "."@);
    assert(is_octet(parts[3]));
    assert(text::is_digit(parts[3][parts[3].len() - 1]));
}

proof fn lemma_groups_end_in_hex_digit(s: Seq<char>)
    requires
        group_count(s) is Some,
        s.len() > 0,
    ensures
        is_hex_digit(s.last()),
{
    let parts = text::split(s, ":"@);
    lemma_last_piece_ends(s, ":"@);
    if hex_groups(parts, parts.len() as int) {
        let last = parts[parts.len() - 1];
        assert(is_hex_group(last));
        assert(is_hex_digit(last[last.len() - 1]));
    } else {
        lemma_ipv4_ends_in_digit(parts.last());
    }
}

/// An IP literal of either family is always an address.
pub proof fn law_ip_literals_are_addresses(s: Seq<char>)
    requires
        is_ip(s),
    ensures
        is_address(s),
{
    lemma_end_of_a_literal(s);
    text::lemma_trailing_is(s, Class::Dot, 0);
    assert(s.take(s.len() as int) == s);
}

/// Dots behind an IP literal make no difference.
pub proof fn law_dots_behind_an_ip_literal(s: Seq<char>, dots: Seq<char>)
    requires
        is_ip(s),
        forall|i: int| 0 <= i < dots.len() ==> #[trigger] dots[i] == '.',
    ensures
        is_address(s + dots),
{
    lemma_end_of_a_literal(s);
    let t = s + dots;
    assert forall|i: int| t.len() - dots.len() <= i < t.len() implies Class::Dot.has(
        #[trigger] t[i],
    ) by {
        assert(t[i] == dots[i - s.len()]);
    }
    assert(t[t.len() - dots.len() - 1] == s.last());
    text::lemma_trailing_is(t, Class::Dot, dots.len() as int);
    assert(t.take(s.len() as int) == s);
}

/// An IP literal does not end in a dot.
proof fn lemma_end_of_a_literal(s: Seq<char>)
    requires
        is_ip(s),
    ensures
        s.len() > 0,
        s.last() != '.',
{
    if is_ipv4(s) {
        lemma_ipv4_ends_in_digit(s);
    } else if text::contains(s, "::"@) {
        reveal_strlit("::");
        text::lemma_find(s, "::"@);
        let at = text::find(s, "::"@);
        let head = text::before(s, "::"@);
        let tail = s.skip(head.len() as int + 2);
        if tail.len() == 0 {
            assert(s.last() == s.subrange(at, at + 2)[1]);
        } else {
            lemma_groups_end_in_hex_digit(tail);
            assert(tail.last() == s.last());
        }
    } else {
        lemma_groups_end_in_hex_digit(s);
    }
}

/// A word without a dot, such as the last one of a sentence with its full
/// stop, is no address unless it is an IP literal.
pub proof fn law_bare_words_are_no_addresses(token: Seq<char>)
    requires
        !text::trim_end(token, Class::Dot).contains('.'),
        !is_ip(text::trim_end(token, Class::Dot)),
    ensures
        !is_address(token),
{
    text::lemma_after_last_none(text::trim_end(token, Class::Dot), '.');
}

/// A name whose last label is made of digits, such as a number with a
/// fraction, is no address unless it is an IP literal.
pub proof fn law_numbers_are_no_addresses(token: Seq<char>, tld: Seq<char>)
    requires
        text::after_last(text::trim_end(token, Class::Dot), '.') == Some(tld),
        forall|i: int| 0 <= i < tld.len() ==> text::is_digit(#[trigger] tld[i]),
        !is_ip(text::trim_end(token, Class::Dot)),
    ensures
        !is_address(token),
{
}

/// The number that octets denote, the most significant one first.
pub open spec fn octets_value(octets: Seq<u8>) -> nat
    decreases octets.len(),
{
    if octets.len() == 0 {
        0
    } else {
        256 * octets_value(octets.drop_last()) + octets.last() as nat
    }
}

/// The value of a hexadecimal digit in lower case.
pub open spec fn hex_value(c: char) -> nat {
    if '0' <= c <= '9' {
        (c as u32 - '0' as u32) as nat
    } else {
        (c as u32 - 'a' as u32 + 10) as nat
    }
}

/// The number that labels of one hexadecimal digit denote, read from the last
/// to the first.
pub open spec fn nibbles_value(labels: Seq<Seq<char>>) -> nat
    decreases labels.len(),
{
    if labels.len() == 0 {
        0
    } else {
        16 * nibbles_value(labels.skip(1)) + hex_value(labels[0][0])
    }
}

/// The number that labels of one decimal octet denote, read from the last to
/// the first.
pub open spec fn decimals_value(labels: Seq<Seq<char>>) -> nat
    decreases labels.len(),
{
    if labels.len() == 0 {
        0
    } else {
        256 * decimals_value(labels.skip(1)) + number::digits_value(labels[0])
    }
}

/// A value below sixteen comes back from its digit.
proof fn lemma_hex_value(d: nat)
    requires
        d < 16,
    ensures
        hex_value(hex_char(d)) == d,
        is_hex_digit(hex_char(d)),
        !('A' <= hex_char(d) <= 'F'),
{
}

proof fn lemma_nibbles_spell(octets: [u8; 16], m: int)
    requires
        0 <= m <= 16,
    ensures
        nibbles_value(labels_of(IpAddress::V6(octets)).skip(32 - 2 * m)) == octets_value(
            octets@.take(m),
        ),
    decreases m,
{
    let labels = labels_of(IpAddress::V6(octets));
    let rest = labels.skip(32 - 2 * m);
    if m == 0 {
        assert(rest == Seq::<Seq<char>>::empty());
        assert(octets@.take(0) == Seq::<u8>::empty());
    } else {
        lemma_nibbles_spell(octets, m - 1);
        let octet = octets@[m - 1] as nat;
        let i = 32 - 2 * m;
        assert(i % 2 == 0 && i / 2 == 16 - m);
        assert((i + 1) % 2 == 1 && (i + 1) / 2 == 16 - m);
        assert(rest[0] == labels[i]);
        assert(rest.skip(1)[0] == labels[i + 1]);
        assert(rest.skip(1).skip(1) == labels.skip(32 - 2 * (m - 1)));
        assert(labels[i] == seq![hex_char(octet % 16)]);
        assert(labels[i + 1] == seq![hex_char(octet / 16)]);
        lemma_hex_value(octet % 16);
        lemma_hex_value(octet / 16);
        assert(octets@.take(m).drop_last() == octets@.take(m - 1));
        assert(octets@.take(m).last() == octets@[m - 1]);
        let above = nibbles_value(rest.skip(1).skip(1));
        assert(nibbles_value(rest.skip(1)) == 16 * above + octet / 16);
        assert(nibbles_value(rest) == 16 * (16 * above + octet / 16) + octet % 16);
    }
}

/// The labels of an address read backwards spell it: the 32 nibbles of an
/// IPv6 address, or the four decimal octets of an IPv4 address without
/// leading zeros, denote its number, most significant octet first.
pub proof fn law_labels_spell_the_address(ip: IpAddress)
    ensures
        match ip {
            IpAddress::V6(octets) => {
                let labels = labels_of(ip);
                &&& labels.len() == 32
                &&& nibbles_value(labels) == octets_value(octets@)
                &&& forall|i: int|
                    0 <= i < 32 ==> (#[trigger] labels[i]).len() == 1 && ('0' <= labels[i][0] <= '9'
                        || 'a' <= labels[i][0] <= 'f')
            },
            IpAddress::V4(octets) => {
                let labels = labels_of(ip);
                &&& labels.len() == 4
                &&& decimals_value(labels) == octets_value(octets@)
                &&& forall|i: int|
                    0 <= i < 4 ==> number::is_digits(#[trigger] labels[i]) && number::digits_value(
                        labels[i],
                    ) == octets@[3 - i] && (labels[i].len() > 1 ==> labels[i][0] != '0')
            },
        },
{
    let labels = labels_of(ip);
    match ip {
        IpAddress::V6(octets) => {
            lemma_nibbles_spell(octets, 16);
            assert(labels.skip(0) == labels);
            assert(octets@.take(16) == octets@);
            assert forall|i: int| 0 <= i < 32 implies (#[trigger] labels[i]).len() == 1 && ('0'
                <= labels[i][0] <= '9' || 'a' <= labels[i][0] <= 'f') by {
                let octet = octets@[15 - i / 2] as nat;
                lemma_hex_value(octet % 16);
                lemma_hex_value(octet / 16);
            }
        },
        IpAddress::V4(octets) => {
            let d = |i: int| octets@[i] as nat;
            assert forall|i: int| 0 <= i < 4 implies number::is_digits(#[trigger] labels[i])
                && number::digits_value(labels[i]) == octets@[3 - i] && (labels[i].len() > 1
                ==> labels[i][0] != '0') by {
                number::lemma_decimal(octets@[3 - i] as nat);
                number::lemma_no_leading_zero(octets@[3 - i] as nat);
            }
            let l1 = labels.skip(1);
            let l2 = l1.skip(1);
            let l3 = l2.skip(1);
            let l4 = l3.skip(1);
            assert(l4 == Seq::<Seq<char>>::empty());
            assert(l1[0] == labels[1] && l2[0] == labels[2] && l3[0] == labels[3]);
            assert(decimals_value(l4) == 0);
            assert(decimals_value(l3) == octets@[0]);
            let o3 = octets@.drop_last();
            let o2 = o3.drop_last();
            let o1 = o2.drop_last();
            let o0 = o1.drop_last();
            assert(o0 == Seq::<u8>::empty());
            assert(octets_value(o0) == 0);
            assert(octets_value(o1) == octets@[0]);
            assert(octets_value(o2) == decimals_value(l2));
            assert(octets_value(o3) == decimals_value(l1));
        },
    }
}

/// A literal holds nothing but hexadecimal digits, colons and dots.
proof fn lemma_ipv4_characters(s: Seq<char>, i: int)
    requires
        is_ipv4(s),
        0 <= i < s.len(),
    ensures
        text::is_digit(s[i]) || s[i] == '.',
{
    reveal_strlit(".");
    let parts = text::split(s, "."@);
    assert("."@ == seq!['.']);
    let at = lemma_place_in_pieces(s, '.', i);
    if s[i] != '.' {
        assert(is_octet(parts[at.0]));
        assert(text::is_digit(parts[at.0][at.1]));
    }
}

/// A character of a text is a separator or stands in one of its pieces.
proof fn lemma_place_in_pieces(s: Seq<char>, c: char, i: int) -> (at: (int, int))
    requires
        0 <= i < s.len(),
    ensures
        s[i] != c ==> 0 <= at.0 < text::split(s, seq![c]).len() && 0 <= at.1 < text::split(
            s,
            seq![c],
        )[at.0].len() && text::split(s, seq![c])[at.0][at.1] == s[i],
    decreases s.len(),
{
    if s.contains(c) {
        let k = text::lemma_cut_at(s, c);
        let head = s.take(k);
        let rest = s.skip(k + 1);
        text::lemma_split_head(head, c, rest);
        assert(s[k] == c);
        if i < k {
            assert(head[i] == s[i]);
            (0, i)
        } else if i == k {
            (0, 0)
        } else {
            assert(rest[i - k - 1] == s[i]);
            let at = lemma_place_in_pieces(rest, c, i - k - 1);
            (at.0 + 1, at.1)
        }
    } else {
        text::lemma_split_whole(s, c);
        (0, i)
    }
}

proof fn lemma_groups_characters(s: Seq<char>, i: int)
    requires
        group_count(s) is Some,
        0 <= i < s.len(),
    ensures
        is_hex_digit(s[i]) || s[i] == '.' || s[i] == ':',
{
    reveal_strlit(":");
    assert(":"@ == seq![':']);
    let parts = text::split(s, ":"@);
    let at = lemma_place_in_pieces(s, ':', i);
    if s[i] != ':' {
        let part = parts[at.0];
        if hex_groups(parts, parts.len() as int) || at.0 < parts.len() - 1 {
            assert(is_hex_group(part));
            assert(is_hex_digit(part[at.1]));
        } else {
            lemma_ipv4_characters(part, at.1);
        }
    }
}

/// An IP literal holds nothing but hexadecimal digits, colons and dots.
pub proof fn law_characters_of_a_literal(s: Seq<char>, i: int)
    requires
        is_ip(s),
        0 <= i < s.len(),
    ensures
        is_hex_digit(s[i]) || s[i] == '.' || s[i] == ':',
{
    reveal_strlit("::");
    if is_ipv4(s) {
        lemma_ipv4_characters(s, i);
    } else if text::contains(s, "::"@) {
        text::lemma_find(s, "::"@);
        let at = text::find(s, "::"@);
        let head = text::before(s, "::"@);
        let tail = s.skip(head.len() as int + 2);
        assert(s.subrange(at, at + 2) == "::"@);
        if i < at {
            assert(head[i] == s[i]);
            lemma_groups_characters(head, i);
        } else if i < at + 2 {
            assert(s.subrange(at, at + 2)[i - at] == s[i]);
        } else {
            assert(tail[i - at - 2] == s[i]);
            lemma_groups_characters(tail, i - at - 2);
        }
    } else {
        lemma_groups_characters(s, i);
    }
}

/// A token that holds anything but letters, digits, dots, hyphens, underscores
/// and colons is no address.
pub proof fn law_foreign_characters_are_no_addresses(token: Seq<char>, i: int)
    requires
        0 <= i < token.len(),
        !text::is_alphanumeric(token[i]) && token[i] != '.' && token[i] != '-' && token[i] != '_'
            && token[i] != ':',
    ensures
        !is_address(token),
{
    let bare = text::trim_end(token, Class::Dot);
    text::lemma_trailing(token, Class::Dot);
    assert(i < bare.len()) by {
        if i >= bare.len() {
            assert(Class::Dot.has(token[i]));
        }
    }
    assert(bare[i] == token[i]);
    if is_ip(bare) {
        law_characters_of_a_literal(bare, i);
    }
    if is_qualified_name(bare) {
        assert(is_name_char(bare[i]));
    }
}

/// A name is an address: characters of a name, a dot, and a last label of at
/// least two letters or digits that are not digits alone; dots behind it make
/// no difference.
pub proof fn law_names_are_addresses(head: Seq<char>, tld: Seq<char>, dots: Seq<char>)
    requires
        forall|i: int|
            0 <= i < head.len() ==> text::is_alphanumeric(#[trigger] head[i]) || head[i] == '.'
                || head[i] == '-' || head[i] == '_' || head[i] == ':',
        tld.len() >= 2,
        forall|i: int| 0 <= i < tld.len() ==> text::is_alphanumeric(#[trigger] tld[i]),
        exists|i: int| 0 <= i < tld.len() && !text::is_digit(#[trigger] tld[i]),
        forall|i: int| 0 <= i < dots.len() ==> #[trigger] dots[i] == '.',
    ensures
        is_address(head + seq!['.'] + tld + dots),
{
    let bare = head + seq!['.'] + tld;
    let token = bare + dots;
    assert(text::is_alphanumeric(tld[tld.len() - 1]));
    assert(bare.last() == tld[tld.len() - 1]);
    assert forall|i: int| token.len() - dots.len() <= i < token.len() implies Class::Dot.has(
        #[trigger] token[i],
    ) by {
        assert(token[i] == dots[i - bare.len()]);
    }
    assert(token[token.len() - dots.len() - 1] == bare.last());
    text::lemma_trailing_is(token, Class::Dot, dots.len() as int);
    assert(text::trim_end(token, Class::Dot) == bare);
    assert forall|i: int| head.len() < i < bare.len() implies #[trigger] bare[i] != '.' by {
        assert(bare[i] == tld[i - head.len() - 1]);
        assert(text::is_alphanumeric(tld[i - head.len() - 1]));
    }
    text::lemma_after_last_is(bare, '.', head.len() as int);
    assert(bare.skip(head.len() as int + 1) == tld);
    assert forall|i: int| 0 <= i < bare.len() implies is_name_char(#[trigger] bare[i]) by {
        if i < head.len() {
            assert(bare[i] == head[i]);
        } else if i > head.len() {
            assert(bare[i] == tld[i - head.len() - 1]);
        }
    }
}

/// Four decimal octets between dots, as an IPv4 address prints.
pub open spec fn dotted(octets: Seq<u8>) -> Seq<char> {
    text::join(Seq::new(4, |i: int| number::decimal(octets[i] as nat)), seq!['.'])
}

/// A text is a dotted IPv4 literal if and only if it is what an address of
/// four octets prints as.
pub proof fn law_ipv4_literals(s: Seq<char>)
    ensures
        is_ipv4(s) <==> exists|octets: Seq<u8>| octets.len() == 4 && s == #[trigger] dotted(octets),
{
    reveal_strlit(".");
    assert("."@ == seq!['.']);
    let parts = text::split(s, seq!['.']);
    if is_ipv4(s) {
        let octets = Seq::new(4, |i: int| number::digits_value(parts[i]) as u8);
        assert forall|i: int| 0 <= i < 4 implies number::decimal(octets[i] as nat)
            == #[trigger] parts[i] by {
            assert(is_octet(parts[i]));
            number::lemma_decimal_of_digits(parts[i]);
        }
        assert(Seq::new(4, |i: int| number::decimal(octets[i] as nat)) =~= parts);
        text::lemma_join_of_split(s, '.');
        assert(s == dotted(octets));
    }
    if exists|octets: Seq<u8>| octets.len() == 4 && s == #[trigger] dotted(octets) {
        let octets = choose|octets: Seq<u8>| octets.len() == 4 && s == #[trigger] dotted(octets);
        let labels = Seq::new(4, |i: int| number::decimal(octets[i] as nat));
        assert forall|i: int| 0 <= i < 4 implies !(#[trigger] labels[i]).contains('.') && is_octet(
            labels[i],
        ) by {
            let n = octets[i] as nat;
            number::lemma_decimal(n);
            number::lemma_no_leading_zero(n);
            assert forall|k: int| 0 <= k < labels[i].len() implies labels[i][k] != '.' by {
                assert(text::is_digit(labels[i][k]));
            }
            reveal_with_fuel(number::decimal, 4);
        }
        text::lemma_split_of_join(labels, '.');
    }
}

/// Hexadecimal groups between colons are an IPv6 literal where there are eight
/// of them, or up to seven around two colons in a row.
pub proof fn law_ipv6_literals(a: Seq<Seq<char>>, b: Seq<Seq<char>>)
    requires
        forall|i: int| 0 <= i < a.len() ==> 1 <= (#[trigger] a[i]).len() <= 4,
        forall|i: int| 0 <= i < b.len() ==> 1 <= (#[trigger] b[i]).len() <= 4,
        forall|i: int, k: int|
            0 <= i < a.len() && 0 <= k < a[i].len() ==> '0' <= #[trigger] a[i][k] <= '9' || 'a'
                <= a[i][k] <= 'f' || 'A' <= a[i][k] <= 'F',
        forall|i: int, k: int|
            0 <= i < b.len() && 0 <= k < b[i].len() ==> '0' <= #[trigger] b[i][k] <= '9' || 'a'
                <= b[i][k] <= 'f' || 'A' <= b[i][k] <= 'F',
    ensures
        a.len() > 0 ==> (is_ipv6(text::join(a, seq![':'])) <==> a.len() == 8),
        is_ipv6(text::join(a, seq![':']) + seq![':', ':'] + text::join(b, seq![':'])) <==> a.len()
            + b.len() <= 7,
{
    reveal_strlit(":");
    reveal_strlit("::");
    assert(":"@ == seq![':']);
    assert("::"@ == seq![':', ':']);
    let head = text::join(a, seq![':']);
    let tail = text::join(b, seq![':']);
    assert forall|i: int| 0 <= i < a.len() implies is_hex_group(#[trigger] a[i]) by {
        assert(1 <= a[i].len() <= 4);
    }
    assert forall|i: int| 0 <= i < b.len() implies is_hex_group(#[trigger] b[i]) by {
        assert(1 <= b[i].len() <= 4);
    }
    lemma_groups_joined(a);
    lemma_groups_joined(b);
    if a.len() > 0 {
        assert(!text::contains(head, "::"@));
    }
    lemma_two_colons(head, tail);
}

/// Two colons behind a text without them are the first ones.
proof fn lemma_two_colons(head: Seq<char>, tail: Seq<char>)
    requires
        !text::contains(head, seq![':', ':']),
        head.len() > 0 ==> head.last() != ':',
    ensures
        ({
            let s = head + seq![':', ':'] + tail;
            &&& text::contains(s, seq![':', ':'])
            &&& text::before(s, seq![':', ':']) == head
            &&& s.skip(head.len() as int + 2) == tail
        }),
{
    let two = seq![':', ':'];
    let s = head + two + tail;
    let n = head.len() as int;
    assert(s.subrange(n, n + 2) == two);
    assert(text::occurs_at(s, two, n));
    assert forall|i: int| 0 <= i < n implies !text::occurs_at(s, two, i) by {
        if text::occurs_at(s, two, i) {
            assert(s.subrange(i, i + 2)[0] == s[i] && s.subrange(i, i + 2)[1] == s[i + 1]);
            assert(head[i] == ':');
            if i + 1 < n {
                assert(head[i + 1] == ':');
                assert(head.subrange(i, i + 2) == two);
                assert(text::occurs_at(head, two, i));
            }
        }
    }
    text::lemma_find_is(s, two, n);
    assert(s.take(n) == head);
    assert(s.skip(n + 2) == tail);
}

/// Groups between colons are counted, never hold two colons in a row, end in
/// no colon and in no IPv4 literal.
proof fn lemma_groups_joined(a: Seq<Seq<char>>)
    requires
        hex_groups(a, a.len() as int),
    ensures
        ({
            let s = text::join(a, seq![':']);
            &&& group_count(s) == Some(a.len())
            &&& !text::contains(s, seq![':', ':'])
            &&& s.len() > 0 ==> s[0] != ':' && s.last() != ':'
            &&& !ends_in_ipv4(s)
        }),
{
    reveal_strlit(":");
    reveal_strlit(".");
    assert(":"@ == seq![':']);
    assert("."@ == seq!['.']);
    let s = text::join(a, seq![':']);
    if a.len() == 0 {
        text::lemma_split_whole(s, ':');
        assert(s.len() == 0);
        text::lemma_split_whole(s, '.');
        if text::contains(s, seq![':', ':']) {
            let i = choose|i: int| text::occurs_at(s, seq![':', ':'], i);
        }
    } else {
        assert forall|i: int| 0 <= i < a.len() implies !(#[trigger] a[i]).contains(':')
            && !a[i].contains('.') by {
            assert(is_hex_group(a[i]));
            assert forall|k: int| 0 <= k < a[i].len() implies a[i][k] != ':' && a[i][k] != '.' by {
                assert(is_hex_digit(a[i][k]));
            }
        }
        text::lemma_split_of_join(a, ':');
        assert(s.len() > 0) by {
            if s.len() == 0 {
                assert(!s.contains(':'));
                text::lemma_split_whole(s, ':');
                assert(a == seq![s]);
                assert(is_hex_group(a[0]));
            }
        }
        lemma_joined_ends(a);
        let last = a[a.len() - 1];
        assert(!last.contains('.'));
        text::lemma_split_whole(last, '.');
    }
}

proof fn lemma_joined_ends(a: Seq<Seq<char>>)
    requires
        a.len() > 0,
        hex_groups(a, a.len() as int),
    ensures
        ({
            let s = text::join(a, seq![':']);
            &&& s.len() > 0
            &&& s[0] != ':' && s.last() != ':'
            &&& !text::contains(s, seq![':', ':'])
        }),
    decreases a.len(),
{
    let s = text::join(a, seq![':']);
    let two = seq![':', ':'];
    let first = a[0];
    assert(is_hex_group(first));
    assert(is_hex_digit(first[0]));
    assert(is_hex_digit(first[first.len() - 1]));
    if a.len() == 1 {
        if text::contains(s, two) {
            let i = choose|i: int| text::occurs_at(s, two, i);
            assert(s.subrange(i, i + 2)[0] == first[i]);
            assert(is_hex_digit(first[i]));
        }
    } else {
        let rest = a.skip(1);
        assert forall|i: int| 0 <= i < rest.len() implies is_hex_group(#[trigger] rest[i]) by {
            assert(rest[i] == a[i + 1]);
        }
        lemma_joined_ends(rest);
        let t = text::join(rest, seq![':']);
        let n = first.len() as int;
        assert(s == first + seq![':'] + t);
        assert(s.last() == t.last());
        if text::contains(s, two) {
            let i = choose|i: int| text::occurs_at(s, two, i);
            assert(s.subrange(i, i + 2)[0] == s[i] && s.subrange(i, i + 2)[1] == s[i + 1]);
            if i < n {
                assert(is_hex_digit(first[i]));
            } else if i == n {
                assert(s[n + 1] == t[0]);
            } else {
                assert(t.subrange(i - n - 1, i - n + 1) == s.subrange(i, i + 2));
                assert(text::occurs_at(t, two, i - n - 1));
            }
        }
    }
}

/// Characters in a row without a separator stand in one piece.
proof fn lemma_run_in_piece(s: Seq<char>, c: char, i: int, n: int) -> (at: (int, int))
    requires
        0 <= i <= i + n <= s.len(),
        n > 0,
        forall|k: int| i <= k < i + n ==> #[trigger] s[k] != c,
    ensures
        ({
            let parts = text::split(s, seq![c]);
            &&& 0 <= at.0 < parts.len()
            &&& 0 <= at.1 <= at.1 + n <= parts[at.0].len()
            &&& parts[at.0].subrange(at.1, at.1 + n) == s.subrange(i, i + n)
        }),
    decreases s.len(),
{
    if s.contains(c) {
        let k = text::lemma_cut_at(s, c);
        let head = s.take(k);
        let rest = s.skip(k + 1);
        text::lemma_split_head(head, c, rest);
        assert(s[k] == c);
        if i < k {
            assert(i + n <= k) by {
                if i + n > k {
                    assert(s[k] != c);
                }
            }
            assert(head.subrange(i, i + n) == s.subrange(i, i + n));
            (0, i)
        } else {
            assert(i != k) by {
                assert(s[i] != c);
            }
            let j = i - k - 1;
            assert forall|l: int| j <= l < j + n implies #[trigger] rest[l] != c by {
                assert(rest[l] == s[l + k + 1]);
            }
            let at = lemma_run_in_piece(rest, c, j, n);
            assert(rest.subrange(j, j + n) == s.subrange(i, i + n));
            (at.0 + 1, at.1)
        }
    } else {
        text::lemma_split_whole(s, c);
        (0, i)
    }
}

proof fn lemma_long_run_is_no_ipv4(s: Seq<char>, i: int, n: int)
    requires
        0 <= i <= i + n <= s.len(),
        n > 3,
        forall|k: int| i <= k < i + n ==> #[trigger] s[k] != '.',
    ensures
        !is_ipv4(s),
{
    reveal_strlit(".");
    assert("."@ == seq!['.']);
    let at = lemma_run_in_piece(s, '.', i, n);
    if is_ipv4(s) {
        assert(is_octet(text::split(s, "."@)[at.0]));
    }
}

proof fn lemma_long_run_is_no_groups(s: Seq<char>, i: int, n: int)
    requires
        0 <= i <= i + n <= s.len(),
        n > 4,
        forall|k: int| i <= k < i + n ==> #[trigger] s[k] != '.' && s[k] != ':',
    ensures
        group_count(s) is None,
{
    reveal_strlit(":");
    assert(":"@ == seq![':']);
    let parts = text::split(s, ":"@);
    let at = lemma_run_in_piece(s, ':', i, n);
    let part = parts[at.0];
    if group_count(s) is Some {
        if hex_groups(parts, parts.len() as int) || at.0 < parts.len() - 1 {
            assert(is_hex_group(part));
        } else {
            assert forall|k: int| at.1 <= k < at.1 + n implies #[trigger] part[k] != '.' by {
                assert(part.subrange(at.1, at.1 + n)[k - at.1] == part[k]);
                assert(s.subrange(i, i + n)[k - at.1] == s[i + k - at.1]);
            }
            lemma_long_run_is_no_ipv4(part, at.1, n);
        }
    }
}

/// A text with more than four characters in a row that are neither dots nor
/// colons is no IP literal.
pub proof fn law_long_groups_are_no_literals(s: Seq<char>, i: int)
    requires
        0 <= i <= i + 5 <= s.len(),
        forall|k: int| i <= k < i + 5 ==> #[trigger] s[k] != '.' && s[k] != ':',
    ensures
        !is_ip(s),
{
    reveal_strlit("::");
    lemma_long_run_is_no_ipv4(s, i, 5);
    if text::contains(s, "::"@) {
        text::lemma_find(s, "::"@);
        let at = text::find(s, "::"@);
        let head = text::before(s, "::"@);
        let tail = s.skip(head.len() as int + 2);
        assert(s.subrange(at, at + 2)[0] == s[at] && s.subrange(at, at + 2)[1] == s[at + 1]);
        if i < at {
            assert(i + 5 <= at) by {
                if i + 5 > at {
                    assert(s[at] != ':');
                }
            }
            assert forall|k: int| i <= k < i + 5 implies #[trigger] head[k] != '.' && head[k]
                != ':' by {
                assert(head[k] == s[k]);
            }
            lemma_long_run_is_no_groups(head, i, 5);
        } else {
            assert(i >= at + 2) by {
                if i == at {
                    assert(s[at] != ':');
                } else if i == at + 1 {
                    assert(s[at + 1] != ':');
                }
            }
            let j = i - at - 2;
            assert forall|k: int| j <= k < j + 5 implies #[trigger] tail[k] != '.' && tail[k]
                != ':' by {
                assert(tail[k] == s[k + at + 2]);
            }
            lemma_long_run_is_no_groups(tail, j, 5);
        }
    } else {
        lemma_long_run_is_no_groups(s, i, 5);
    }
}

/// An IPv4 address at the end of an IPv6 literal stands for two groups: behind
/// six groups, or behind two colons and up to five groups.
#[verifier::spinoff_prover]
pub proof fn law_ipv4_in_ipv6(a: Seq<Seq<char>>, b: Seq<Seq<char>>, octets: Seq<u8>)
    requires
        hex_groups(a, a.len() as int),
        hex_groups(b, b.len() as int),
        octets.len() == 4,
    ensures
        a.len() > 0 ==> (is_ipv6(text::join(a.push(dotted(octets)), seq![':'])) <==> a.len() == 6),
        is_ipv6(
            text::join(a, seq![':']) + seq![':', ':'] + text::join(
                b.push(dotted(octets)),
                seq![':'],
            ),
        ) <==> a.len() + b.len() <= 5,
{
    reveal_strlit(":");
    reveal_strlit("::");
    assert(":"@ == seq![':']);
    assert("::"@ == seq![':', ':']);
    lemma_groups_joined(a);
    lemma_mixed_joined(a, octets);
    lemma_mixed_joined(b, octets);
    let head = text::join(a, seq![':']);
    let tail = text::join(b.push(dotted(octets)), seq![':']);
    lemma_two_colons(head, tail);
}

/// Groups and an IPv4 address behind them, between colons.
proof fn lemma_mixed_joined(a: Seq<Seq<char>>, octets: Seq<u8>)
    requires
        hex_groups(a, a.len() as int),
        octets.len() == 4,
    ensures
        ({
            let s = text::join(a.push(dotted(octets)), seq![':']);
            &&& group_count(s) == Some(a.len() + 2)
            &&& !text::contains(s, seq![':', ':'])
            &&& s.len() > 0
        }),
{
    reveal_strlit(":");
    assert(":"@ == seq![':']);
    let d = dotted(octets);
    law_ipv4_literals(d);
    assert(is_ipv4(d));
    lemma_ipv4_ends_in_digit(d);
    let all = a.push(d);
    let s = text::join(all, seq![':']);
    assert forall|i: int| 0 <= i < all.len() implies !(#[trigger] all[i]).contains(':') by {
        if i < a.len() {
            assert(is_hex_group(a[i]));
            assert forall|k: int| 0 <= k < a[i].len() implies a[i][k] != ':' by {
                assert(is_hex_digit(a[i][k]));
            }
        } else {
            assert forall|k: int| 0 <= k < d.len() implies d[k] != ':' by {
                lemma_ipv4_characters(d, k);
            }
        }
    }
    text::lemma_split_of_join(all, ':');
    lemma_dot_in_ipv4(d);
    assert(all[all.len() - 1] == d);
    assert forall|i: int| 0 <= i < all.len() - 1 implies is_hex_group(#[trigger] all[i]) by {
        assert(all[i] == a[i]);
    }
    lemma_mixed_colons(a, d);
}

/// A dotted literal holds a dot, so it is no hexadecimal group.
proof fn lemma_dot_in_ipv4(d: Seq<char>)
    requires
        is_ipv4(d),
    ensures
        !is_hex_group(d),
{
    reveal_strlit(".");
    assert("."@ == seq!['.']);
    if is_hex_group(d) {
        assert forall|k: int| 0 <= k < d.len() implies d[k] != '.' by {
            assert(is_hex_digit(d[k]));
        }
        text::lemma_split_whole(d, '.');
    }
}

proof fn lemma_mixed_colons(a: Seq<Seq<char>>, d: Seq<char>)
    requires
        hex_groups(a, a.len() as int),
        d.len() > 0,
        !d.contains(':'),
    ensures
        ({
            let s = text::join(a.push(d), seq![':']);
            s.len() > 0 && s[0] != ':' && !text::contains(s, seq![':', ':'])
        }),
    decreases a.len(),
{
    let all = a.push(d);
    let s = text::join(all, seq![':']);
    let two = seq![':', ':'];
    if a.len() == 0 {
        assert(s == d);
        assert(d.contains(d[0]));
        if text::contains(s, two) {
            let i = choose|i: int| text::occurs_at(s, two, i);
            assert(s.subrange(i, i + 2)[0] == d[i]);
            assert(d.contains(d[i]));
        }
    } else {
        let first = a[0];
        let rest = a.skip(1);
        assert(is_hex_group(first));
        assert(is_hex_digit(first[0]));
        assert forall|i: int| 0 <= i < rest.len() implies is_hex_group(#[trigger] rest[i]) by {
            assert(rest[i] == a[i + 1]);
        }
        lemma_mixed_colons(rest, d);
        assert(all.skip(1) == rest.push(d));
        assert(all[0] == first);
        let t = text::join(rest.push(d), seq![':']);
        let n = first.len() as int;
        assert(s == first + seq![':'] + t);
        if text::contains(s, two) {
            let i = choose|i: int| text::occurs_at(s, two, i);
            assert(s.subrange(i, i + 2)[0] == s[i] && s.subrange(i, i + 2)[1] == s[i + 1]);
            if i < n {
                assert(is_hex_digit(first[i]));
            } else if i == n {
                assert(s[n + 1] == t[0]);
            } else {
                assert(t.subrange(i - n - 1, i - n + 1) == s.subrange(i, i + 2));
                assert(text::occurs_at(t, two, i - n - 1));
            }
        }
    }
}

/// An IPv4 address can stand at the end of an IPv6 address only: no IPv6
/// literal has a dot in front of its double colon.
pub proof fn law_ipv4_comes_last(head: Seq<char>, tail: Seq<char>)
    requires
        head.contains('.'),
        !text::contains(head, seq![':', ':']),
        head.last() != ':',
    ensures
        !is_ipv6(head + seq![':', ':'] + tail),
{
    assert("::"@ == seq![':', ':']) by {
        reveal_strlit("::");
    }
    assert(":"@ == seq![':']) by {
        reveal_strlit(":");
    }
    lemma_two_colons(head, tail);
    let parts = text::split(head, seq![':']);
    let i = choose|i: int| 0 <= i < head.len() && head[i] == '.';
    let at = lemma_place_in_pieces(head, ':', i);
    assert(!is_hex_digit('.'));
    assert(!is_hex_group(parts[at.0])) by {
        if is_hex_group(parts[at.0]) {
            assert(is_hex_digit(parts[at.0][at.1]));
        }
    }
    assert(group_count(head) is Some ==> ends_in_ipv4(head));
}

} // verus!
