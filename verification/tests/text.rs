use net_tools::text::{
    chars_of, has_pattern, head_before, is_ascii_alphanumeric, is_white_space,
    joined, lines_of, occurrences, pieces, prefix_of, replaced, string_of, tail_after, trimmed,
    trimmed_end, trimmed_end_pattern, trimmed_start, words_of, Class,
};

fn text(s: &[char]) -> String {
    s.iter().collect()
}

fn texts(v: &[&[char]]) -> Vec<String> {
    v.iter().map(|s| text(s)).collect()
}

struct Lcg(u64);

impl Lcg {
    fn next(&mut self, bound: usize) -> usize {
        self.0 = self.0.wrapping_mul(6364136223846793005).wrapping_add(1442695040888963407);
        ((self.0 >> 33) as usize) % bound
    }

    fn text(&mut self, alphabet: &str, len: usize) -> String {
        let chars: Vec<char> = alphabet.chars().collect();
        (0..self.next(len)).map(|_| chars[self.next(chars.len())]).collect()
    }
}

#[test]
fn classes_agree_with_unicode() {
    for code in 0..=0x10ffffu32 {
        if let Some(c) = char::from_u32(code) {
            assert_eq!(is_white_space(c), c.is_whitespace(), "{code:x}");
            assert_eq!(is_ascii_alphanumeric(c), c.is_ascii_alphanumeric(), "{code:x}");
            assert_eq!(Class::Digit.contains(c), c.is_ascii_digit(), "{code:x}");
            assert_eq!(Class::Word.contains(c), !c.is_whitespace(), "{code:x}");
        }
    }
}

#[test]
fn strings_survive_as_characters() {
    for s in ["", "plain", "größe 漢字 🦀\r\n"] {
        assert_eq!(string_of(&chars_of(s)), s);
    }
}

#[test]
fn cutting_agrees_with_the_standard_library() {
    let mut rng = Lcg(11);
    for _ in 0..20_000 {
        let s = rng.text("ab=%/(). \t\u{a0}\u{2003}\r\n\nmsms.1é", 24);
        let c = chars_of(&s);
        assert_eq!(texts(&lines_of(&c)), s.lines().collect::<Vec<&str>>(), "{s:?}");
        assert_eq!(texts(&words_of(&c)), s.split_whitespace().collect::<Vec<&str>>(), "{s:?}");
        assert_eq!(text(trimmed(&c, Class::Space)), s.trim(), "{s:?}");
        assert_eq!(text(trimmed_start(&c, Class::Space)), s.trim_start(), "{s:?}");
        assert_eq!(text(trimmed_end(&c, Class::Space)), s.trim_end(), "{s:?}");
        assert_eq!(text(trimmed_end(&c, Class::Dot)), s.trim_end_matches('.'), "{s:?}");
        assert_eq!(text(trimmed_end(&c, Class::Percent)), s.trim_end_matches('%'), "{s:?}");
        assert_eq!(
            text(trimmed(&c, Class::Paren)),
            s.trim_matches(|c| c == '(' || c == ')'),
            "{s:?}"
        );
        let digits: String = s.chars().take_while(|c| c.is_ascii_digit() || *c == '.').collect();
        assert_eq!(text(prefix_of(&c, Class::DigitOrDot)), digits, "{s:?}");
        for pat in ["=", "ms", "sm", "b", "é", "msms"] {
            assert_eq!(texts(&pieces(&c, pat)), s.split(pat).collect::<Vec<&str>>(), "{s:?}");
            assert_eq!(occurrences(&c, pat), s.matches(pat).count(), "{s:?}");
            assert_eq!(has_pattern(&c, pat), s.contains(pat), "{s:?}");
            assert_eq!(text(head_before(&c, pat)), s.split(pat).next().unwrap(), "{s:?}");
            assert_eq!(text(trimmed_end_pattern(&c, pat)), s.trim_end_matches(pat), "{s:?}");
            assert_eq!(replaced(&s, pat, "<=>"), s.replacen(pat, "<=>", 1), "{s:?}");
        }
        assert_eq!(
            tail_after(&c, '=').map(text),
            s.rsplit_once('=').map(|(_, tail)| tail.to_string()),
            "{s:?}"
        );
    }
}

#[test]
fn joined_parts_split_again() {
    for parts in [vec!["4", "3", "2", "1"], vec!["one"], vec!["", "x", ""]] {
        let owned: Vec<String> = parts.iter().map(|s| s.to_string()).collect();
        let whole = joined(&owned, ".");
        assert_eq!(whole, parts.join("."));
        assert_eq!(texts(&pieces(&chars_of(&whole), ".")), parts);
    }
    assert_eq!(joined(&Vec::new(), ", "), "");
}
