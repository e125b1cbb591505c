use po_library::text::{
    char_is_space, chars_of, decimal_text, find_first, find_line_end, stands_at, string_of,
    trim_range,
};

fn trimmed(text: &str) -> String {
    let chars = chars_of(text);
    let (from, to) = trim_range(&chars, 0, chars.len());
    string_of(&chars, from, to)
}

#[test]
fn white_space_is_what_std_calls_white_space() {
    let mut code = 0u32;
    while code <= 0x10ffff {
        if let Some(c) = char::from_u32(code) {
            assert_eq!(char_is_space(c), c.is_whitespace());
        }
        code += 1;
    }
}

#[test]
fn chars_and_strings_pass_into_each_other() {
    let chars = chars_of("h\u{e9}llo");
    assert_eq!(chars, vec!['h', '\u{e9}', 'l', 'l', 'o']);
    assert_eq!(string_of(&chars, 1, 4), "\u{e9}ll");
    assert_eq!(string_of(&chars, 2, 2), "");
}

#[test]
fn trimming_is_what_std_trims() {
    for text in ["", " ", "a", "  a b \n", "\t\r\n x\u{a0}", "\u{3000}y z\u{2028}", "no space"] {
        assert_eq!(trimmed(text), text.trim());
    }
}

#[test]
fn find_first_gives_the_first_place() {
    let text = chars_of("abcabc");
    assert_eq!(find_first(&text, &chars_of("bc")), Some(1));
    assert_eq!(find_first(&text, &chars_of("abc")), Some(0));
    assert_eq!(find_first(&text, &chars_of("cab")), Some(2));
    assert_eq!(find_first(&text, &chars_of("abcabc")), Some(0));
    assert_eq!(find_first(&text, &chars_of("x")), None);
    assert_eq!(find_first(&text, &chars_of("abcabca")), None);
    assert!(stands_at(&text, &chars_of("ca"), 2));
    assert!(!stands_at(&text, &chars_of("ca"), 1));
}

#[test]
fn line_ends_at_the_line_feed() {
    let text = chars_of("ab\ncd");
    assert_eq!(find_line_end(&text, 0, 5), 2);
    assert_eq!(find_line_end(&text, 2, 5), 2);
    assert_eq!(find_line_end(&text, 3, 5), 5);
    assert_eq!(find_line_end(&text, 0, 1), 1);
}

#[test]
fn decimal_text_is_what_std_prints() {
    for n in [0u64, 1, 9, 10, 11, 99, 100, 2024, 65535, 65536, u64::MAX] {
        assert_eq!(decimal_text(n), n.to_string());
    }
}
