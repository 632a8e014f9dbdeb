use forestools::text::{is_white_space_char, trim_chars, trim_text};

#[test]
fn trim_removes_unicode_white_space_at_both_ends() {
    assert_eq!(trim_text("  abc \t"), "abc");
    assert_eq!(trim_text("\u{3000}微信\u{2003}"), "微信");
    assert_eq!(trim_text("a b"), "a b");
    assert_eq!(trim_text(" \n\t "), "");
    assert_eq!(trim_text(""), "");
    for s in ["  x y  ", "\u{85}z\u{a0}", "\u{200b}q"] {
        assert_eq!(trim_text(s), s.trim());
    }
}

#[test]
fn trim_twice_is_trim_once() {
    let once = trim_text("\u{2028} Foo Bar \u{205f}");
    assert_eq!(trim_text(&once), once);
}

#[test]
fn trim_chars_keeps_inner_characters() {
    let v: Vec<char> = " a\tb ".chars().collect();
    assert_eq!(trim_chars(&v), vec!['a', '\t', 'b']);
}

#[test]
fn white_space_matches_char_is_whitespace() {
    for c in ['\t', '\n', '\u{b}', '\u{c}', '\r', ' ', '\u{85}', '\u{a0}', '\u{1680}', '\u{2000}', '\u{200a}',
        '\u{2028}', '\u{2029}', '\u{202f}', '\u{205f}', '\u{3000}', 'a', '\u{200b}', '\u{180e}', '微']
    {
        assert_eq!(is_white_space_char(c), c.is_whitespace(), "{:?}", c);
    }
}
