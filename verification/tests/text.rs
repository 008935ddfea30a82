use sonic::text::{
    char_is_whitespace, chars_eq, chars_of, contains_chars, ends_with_chars, find_char, parse_u32,
    rfind_char, starts_with_chars, str_eq, string_of, trim_chars, utf8_len_upto4,
};

fn cs(s: &str) -> Vec<char> {
    s.chars().collect()
}

#[test]
fn whitespace_agrees_with_std() {
    for c in ['\t', '\n', '\u{b}', '\u{c}', '\r', ' ', '\u{85}', '\u{a0}', '\u{1680}', '\u{2000}',
        '\u{200a}', '\u{2028}', '\u{2029}', '\u{202f}', '\u{205f}', '\u{3000}', 'a', '\u{200b}',
        '\u{feff}', '你', '\u{180e}', '\0']
    {
        assert_eq!(char_is_whitespace(c), c.is_whitespace(), "{:?}", c);
    }
    for code in 0u32..0x3100 {
        if let Some(c) = char::from_u32(code) {
            assert_eq!(char_is_whitespace(c), c.is_whitespace(), "{:?}", c);
        }
    }
}

#[test]
fn trim_agrees_with_std() {
    for s in ["", "   ", "  a b  ", "\u{3000}歌词\u{a0}", "x", "\r\n[00:01]x\r"] {
        let v = cs(s);
        let t: String = trim_chars(&v).iter().collect();
        assert_eq!(t, s.trim());
    }
}

#[test]
fn parse_u32_agrees_with_std() {
    for s in ["0", "42", "+7", "+", "", "-1", "4294967295", "4294967296", "00012", "1a", " 1", "++1"] {
        assert_eq!(parse_u32(&cs(s)), s.parse::<u32>().ok(), "{:?}", s);
    }
}

#[test]
fn searching() {
    let v = cs("a:b:c");
    assert_eq!(find_char(&v, ':'), Some(1));
    assert_eq!(rfind_char(&v, ':'), Some(3));
    assert_eq!(find_char(&v, '!'), None);
    assert!(starts_with_chars(&v, &cs("a:")));
    assert!(ends_with_chars(&v, &cs(":c")));
    assert!(contains_chars(&v, &cs("b:c")));
    assert!(!contains_chars(&v, &cs("ba")));
    assert!(contains_chars(&v, &[]));
}

#[test]
fn conversions() {
    assert_eq!(chars_of("你好"), vec!['你', '好']);
    assert_eq!(string_of(&['a', '好']), "a好");
    assert!(str_eq("abc", "abc"));
    assert!(!str_eq("abc", "abd"));
    assert!(chars_eq(&['x'], &['x']));
    assert!(!chars_eq(&['x'], &['x', 'y']));
    assert_eq!(utf8_len_upto4(&cs("ab")), 2);
    assert_eq!(utf8_len_upto4(&cs("你")), 3);
    assert_eq!(utf8_len_upto4(&cs("你好")), 4);
}
