use simple_file_server::text::{
    ascii_blank, blank, find_between, find_first, find_last, is_literal, occurs, same, to_chars,
    to_decimal, trim_between,
};

fn chars(text: &str) -> Vec<char> {
    text.chars().collect()
}

fn trimmed(text: &str) -> String {
    let text = chars(text);
    let (a, b) = trim_between(&text, 0, text.len());
    text[a..b].iter().collect()
}

#[test]
fn characters_of_a_text() {
    assert_eq!(to_chars(""), Vec::<char>::new());
    assert_eq!(to_chars("a\r\n"), vec!['a', '\r', '\n']);
    assert_eq!(to_chars("caf\u{e9}\u{1f600}"), vec!['c', 'a', 'f', '\u{e9}', '\u{1f600}']);
}

#[test]
fn a_pattern_stands_at_an_index() {
    let hay = chars("abcabc");
    assert!(occurs(&hay, &chars("abc"), 0));
    assert!(occurs(&hay, &chars("abc"), 3));
    assert!(!occurs(&hay, &chars("abc"), 1));
    assert!(occurs(&hay, &chars(""), 6));
    assert!(occurs(&hay, &chars("c"), 5));
}

#[test]
fn the_first_occurrence_is_found() {
    assert_eq!(find_first(&chars("a\r\nb\r\n"), &chars("\r\n")), Some(1));
    assert_eq!(find_first(&chars("\r\r\n"), &chars("\r\n")), Some(1));
    assert_eq!(find_first(&chars("a\rb\nc"), &chars("\r\n")), None);
    assert_eq!(find_first(&chars("abc"), &chars("abc")), Some(0));
    assert_eq!(find_first(&chars("ab"), &chars("abc")), None);
    assert_eq!(find_first(&chars(""), &chars("a")), None);
    assert_eq!(find_first(&chars("abc"), &chars("")), Some(0));
    assert_eq!(find_first(&chars(""), &chars("")), Some(0));
    assert_eq!(find_first(&chars("aab"), &chars("ab")), Some(1));
}

#[test]
fn the_first_occurrence_between_two_bounds() {
    let text = chars("a:b:c:d");
    assert_eq!(find_between(&text, 0, 7, &chars(":")), Some(1));
    assert_eq!(find_between(&text, 2, 7, &chars(":")), Some(3));
    assert_eq!(find_between(&text, 4, 5, &chars(":")), None);
    assert_eq!(find_between(&text, 4, 6, &chars(":")), Some(5));
    assert_eq!(find_between(&text, 7, 7, &chars(":")), None);
}

#[test]
fn the_last_occurrence_is_found() {
    assert_eq!(find_last(&chars("a/b/c"), '/'), Some(3));
    assert_eq!(find_last(&chars("/"), '/'), Some(0));
    assert_eq!(find_last(&chars("abc"), '/'), None);
    assert_eq!(find_last(&chars(""), '/'), None);
}

#[test]
fn slices_with_the_same_characters() {
    assert!(same(&chars("GET"), &chars("GET")));
    assert!(!same(&chars("GET"), &chars("GE")));
    assert!(!same(&chars("GET"), &chars("GEt")));
    assert!(same(&chars(""), &chars("")));
    assert!(is_literal(&chars("HTTP/1.1"), "HTTP/1.1"));
    assert!(!is_literal(&chars("HTTP/1.1"), "HTTP/1.0"));
    assert!(!is_literal(&chars("HTTP/1.1 "), "HTTP/1.1"));
}

#[test]
fn white_space() {
    for c in [' ', '\t', '\n', '\x0b', '\x0c', '\r', '\u{85}', '\u{a0}', '\u{1680}', '\u{2000}',
        '\u{2005}', '\u{200a}', '\u{2028}', '\u{2029}', '\u{202f}', '\u{205f}', '\u{3000}'] {
        assert!(blank(c), "{:?}", c);
    }
    for c in ['a', '0', '\0', '\x08', '\x0e', '\x1f', '\u{200b}', '\u{feff}', '\u{180e}'] {
        assert!(!blank(c), "{:?}", c);
    }
}

#[test]
fn white_space_as_std_has_it() {
    let mut code: u32 = 0;
    while code <= 0x10ffff {
        if let Some(c) = char::from_u32(code) {
            assert_eq!(blank(c), c.is_whitespace(), "{:?}", c);
            assert_eq!(ascii_blank(c), c.is_ascii_whitespace(), "{:?}", c);
        }
        code += 1;
    }
}

#[test]
fn ascii_white_space() {
    for c in [' ', '\t', '\n', '\x0c', '\r'] {
        assert!(ascii_blank(c), "{:?}", c);
    }
    for c in ['\x0b', '\u{a0}', '\u{85}', 'a', '\0'] {
        assert!(!ascii_blank(c), "{:?}", c);
    }
}

#[test]
fn trimming_takes_white_space_from_both_ends() {
    assert_eq!(trimmed("  a b  "), "a b");
    assert_eq!(trimmed("\t\r\n a\u{a0}"), "a");
    assert_eq!(trimmed("a"), "a");
    assert_eq!(trimmed(""), "");
    assert_eq!(trimmed(" \t "), "");
    assert_eq!(trimmed("\u{3000}x\u{2003}y\u{85}"), "x\u{2003}y");
}

#[test]
fn trimming_as_std_has_it() {
    for text in ["  a b  ", "", "   ", "x", "\u{a0}x y\u{3000} ", "\0 a \0", " \x0b\x0c a"] {
        assert_eq!(trimmed(text), text.trim());
    }
}

#[test]
fn trimming_between_two_bounds() {
    let text = chars("ab  cd  ef");
    assert_eq!(trim_between(&text, 2, 8), (4, 6));
    assert_eq!(trim_between(&text, 2, 4), (4, 4));
    assert_eq!(trim_between(&text, 0, 10), (0, 10));
    assert_eq!(trim_between(&text, 5, 5), (5, 5));
}

#[test]
fn numbers_in_decimal() {
    assert_eq!(to_decimal(0), "0");
    assert_eq!(to_decimal(7), "7");
    assert_eq!(to_decimal(9), "9");
    assert_eq!(to_decimal(10), "10");
    assert_eq!(to_decimal(48), "48");
    assert_eq!(to_decimal(100), "100");
    assert_eq!(to_decimal(1234567890), "1234567890");
    assert_eq!(to_decimal(usize::MAX), usize::MAX.to_string());
}
