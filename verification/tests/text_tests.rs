use novel_tools::text::{
    chars_of, is_blank, is_whitespace, join, push_decimal, same_text, split_char, string_of_chars,
    text_at, trim,
};

#[test]
fn trim_removes_surrounding_white_space() {
    assert_eq!(trim("  abc \t\n"), "abc");
    assert_eq!(trim("\u{3000}名前\u{3000}"), "名前");
    assert_eq!(trim("a b"), "a b");
    assert_eq!(trim(" \t "), "");
    assert_eq!(trim(""), "");
}

#[test]
fn trim_agrees_with_std() {
    for s in ["  x  ", "\u{a0}y\u{2009}", "\r\nz\r\n", "no-space", "\u{200b}zw\u{200b}", " \u{85} "] {
        assert_eq!(trim(s), s.trim());
    }
}

#[test]
fn trimming_twice_is_trimming_once() {
    for s in ["  a b  ", "\t\t", "x", ""] {
        assert_eq!(trim(&trim(s)), trim(s));
    }
}

#[test]
fn blank_lines_hold_only_white_space() {
    assert!(is_blank(""));
    assert!(is_blank(" \t\u{3000}"));
    assert!(!is_blank(" a "));
}

#[test]
fn whitespace_agrees_with_std_for_every_char() {
    for u in 0u32..=0x10ffff {
        if let Some(c) = char::from_u32(u) {
            assert_eq!(is_whitespace(c), c.is_whitespace(), "char {:x}", u);
        }
    }
}

#[test]
fn join_puts_the_separator_between_parts() {
    let parts = vec!["山田".to_string(), "太郎".to_string()];
    assert_eq!(join(&parts, ""), "山田太郎");
    assert_eq!(join(&parts, "・"), "山田・太郎");
    assert_eq!(join(&vec![], "-"), "");
    assert_eq!(join(&vec!["one".to_string()], "-"), "one");
}

#[test]
fn split_keeps_empty_pieces() {
    assert_eq!(split_char("Taro Yamada", ' '), vec!["Taro", "Yamada"]);
    assert_eq!(split_char("a  b", ' '), vec!["a", "", "b"]);
    assert_eq!(split_char("", ' '), vec![""]);
    assert_eq!(split_char("a ", ' '), vec!["a", ""]);
}

#[test]
fn split_then_join_gives_back_the_text() {
    for s in ["Taro Yamada", " x  y ", "", "single"] {
        assert_eq!(join(&split_char(s, ' '), " "), s);
    }
}

#[test]
fn decimal_numerals() {
    let mut s = String::from("line-");
    push_decimal(&mut s, 0);
    assert_eq!(s, "line-0");
    let mut s = String::new();
    push_decimal(&mut s, 10);
    assert_eq!(s, "10");
    let mut s = String::new();
    push_decimal(&mut s, 1234567890);
    assert_eq!(s, "1234567890");
    let mut s = String::new();
    push_decimal(&mut s, usize::MAX);
    assert_eq!(s, usize::MAX.to_string());
}

#[test]
fn characters_round_trip() {
    let v = chars_of("a名b");
    assert_eq!(v, vec!['a', '名', 'b']);
    assert_eq!(string_of_chars(&v), "a名b");
}

#[test]
fn text_comparison_and_search() {
    assert!(same_text("名前", "名前"));
    assert!(!same_text("名前", "名"));
    let v = chars_of("https://x");
    assert!(text_at(&v, 0, &chars_of("https")));
    assert!(!text_at(&v, 1, &chars_of("https")));
    assert!(!text_at(&v, 8, &chars_of("xy")));
}
