use gm_docs_parser::text::{
    ascii_lowercase, blank, chars_of, contains, ends_with, find_char, is_str, is_whitespace, less, same_chars,
    split, starts_with, str_contains, str_less, string_of, to_ascii_lower, trim, trim_bounds,
};

fn chars(s: &str) -> Vec<char> {
    s.chars().collect()
}

#[test]
fn strings_and_characters_convert() {
    assert_eq!(chars_of("héllo"), vec!['h', 'é', 'l', 'l', 'o']);
    assert_eq!(chars_of(""), Vec::<char>::new());
    assert_eq!(string_of(&vec!['h', 'é', 'y']), "héy");
    assert_eq!(string_of(&vec![]), "");
}

#[test]
fn white_space_is_what_std_says() {
    for code in 0u32..0x3100 {
        if let Some(c) = char::from_u32(code) {
            assert_eq!(is_whitespace(c), c.is_whitespace(), "code point {:#x}", code);
        }
    }
    assert!(!is_whitespace('\u{feff}'));
    assert!(!is_whitespace('\u{10ffff}'));
}

#[test]
fn trim_agrees_with_std() {
    for s in ["", " ", "a", " a", "a ", "  a b \n", "\u{a0}x\u{3000}", "\t\r\n", " \u{200b} "] {
        assert_eq!(string_of(&trim(&chars(s))), s.trim(), "{:?}", s);
        assert_eq!(blank(&chars(s)), s.trim().is_empty(), "{:?}", s);
    }
    assert_eq!(trim_bounds(&chars("  ab ")), (2, 4));
    assert_eq!(trim_bounds(&chars("   ")), (3, 3));
}

#[test]
fn search_agrees_with_std() {
    let texts = ["", "a", "ab", "abab", "..", "a..", "a..b", "optional", "An Optional x", "aaa"];
    let patterns = ["", "a", "b", "ab", "ba", "..", "optional", "Optional", "aa", "aaaa"];
    for s in texts {
        for p in patterns {
            assert_eq!(contains(&chars(s), &chars(p)), s.contains(p), "{:?} {:?}", s, p);
            assert_eq!(str_contains(s, p), s.contains(p), "{:?} {:?}", s, p);
            assert_eq!(starts_with(&chars(s), &chars(p)), s.starts_with(p), "{:?} {:?}", s, p);
            assert_eq!(ends_with(&chars(s), &chars(p)), s.ends_with(p), "{:?} {:?}", s, p);
            assert_eq!(same_chars(&chars(s), &chars(p)), s == p);
            assert_eq!(is_str(s, p), s == p);
            assert_eq!(less(&chars(s), &chars(p)), s < p, "{:?} {:?}", s, p);
            assert_eq!(str_less(s, p), s < p, "{:?} {:?}", s, p);
        }
    }
}

#[test]
fn first_character_is_found() {
    assert_eq!(find_char(&chars("f(a)(b)"), '('), Some(1));
    assert_eq!(find_char(&chars("f(a)(b)"), ')'), Some(3));
    assert_eq!(find_char(&chars("f(a)(b)"), 'x'), None);
    assert_eq!(find_char(&chars(""), 'x'), None);
    assert_eq!(find_char(&chars("é("), '('), Some(1));
}

#[test]
fn split_agrees_with_std() {
    for s in ["", ",", "a", "a,b", "a,,b", ",a,", " a , b ", ",,"] {
        let got: Vec<String> = split(&chars(s), ',').iter().map(string_of).collect();
        let expected: Vec<String> = s.split(',').map(|p| p.to_string()).collect();
        assert_eq!(got, expected, "{:?}", s);
    }
}

#[test]
fn ascii_capitals_are_lowered() {
    assert_eq!(string_of(&ascii_lowercase(&chars("Syntax: ÀB z[@`{"))), "syntax: Àb z[@`{");
    assert_eq!(to_ascii_lower('A'), 'a');
    assert_eq!(to_ascii_lower('Z'), 'z');
    assert_eq!(to_ascii_lower('@'), '@');
    assert_eq!(to_ascii_lower('['), '[');
    for code in 0u32..0x250 {
        if let Some(c) = char::from_u32(code) {
            assert_eq!(to_ascii_lower(c), c.to_ascii_lowercase());
        }
    }
}
