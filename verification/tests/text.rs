use pcfg::text::{char_in_class, char_is_whitespace, chars_of, find_from, string_of, trim, CharClass};

#[test]
fn whitespace_is_what_unicode_says() {
    let mut c = '\0';
    loop {
        assert_eq!(c.is_whitespace(), char_is_whitespace(c), "{:?}", c);
        if c == char::MAX {
            break;
        }
        c = match char::from_u32(c as u32 + 1) {
            Some(next) => next,
            None => '\u{e000}',
        };
    }
}

#[test]
fn trim_cuts_whitespace_at_both_ends() {
    for text in [
        "",
        " ",
        "\t\r\n",
        "a",
        "  a b  ",
        "\u{a0}a\u{3000}",
        "\u{2003}x y\u{85}",
        "a\n",
        "é ",
    ] {
        let trimmed: String = trim(&chars_of(text)).iter().collect();
        assert_eq!(text.trim(), trimmed);
    }
}

#[test]
fn scanning_stops_at_the_class() {
    let text = chars_of("ab cd|e");
    assert_eq!(2, find_from(&text, 0, CharClass::TokenEnd));
    assert_eq!(2, find_from(&text, 2, CharClass::TokenEnd));
    assert_eq!(7, find_from(&text, 3, CharClass::TokenEnd));
    assert_eq!(5, find_from(&text, 0, CharClass::LabelEnd));
    assert_eq!(3, find_from(&text, 2, CharClass::NotBlank));
    assert_eq!(7, find_from(&text, 7, CharClass::ItemEnd));
    assert_eq!("cd", string_of(&text, 3, 5));
    assert_eq!("", string_of(&text, 3, 3));
    assert!(char_in_class(CharClass::AtomEnd, '('));
    assert!(char_in_class(CharClass::AtomEnd, '\t'));
    assert!(!char_in_class(CharClass::AtomEnd, '\n'));
    assert!(char_in_class(CharClass::ItemEnd, ','));
    assert!(!char_in_class(CharClass::LabelEnd, ','));
    assert!(char_in_class(CharClass::NotWhitespace, 'a'));
    assert!(!char_in_class(CharClass::NotWhitespace, '\u{a0}'));
    assert!(char_in_class(CharClass::NotBlank, '\u{a0}'));
}
