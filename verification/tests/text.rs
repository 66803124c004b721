use i3_dmenu_desktop_rs::text::{
    char_is_whitespace, chars_are, chars_eq, chars_le, chars_of, find_char, find_last_char,
    sorted_strings, split_chars, split_string, string_of, trim_chars,
};

fn chars(s: &str) -> Vec<char> {
    s.chars().collect()
}

#[test]
fn string_and_chars_are_one_text() {
    for s in ["", "abc", "\u{e9}t\u{e9} \u{4e16}\u{754c}", "a\nb\t"] {
        assert_eq!(chars_of(s), chars(s));
        assert_eq!(string_of(&chars(s)), s);
    }
}

#[test]
fn white_space_is_the_unicode_property() {
    for c in ['\u{0}', 'a', '_', '\u{8}', '\u{e}', '\u{1f}', '\u{200b}', '\u{180e}', '\u{feff}'] {
        assert!(!char_is_whitespace(c));
        assert_eq!(char_is_whitespace(c), c.is_whitespace());
    }
    for c in [' ', '\t', '\n', '\u{b}', '\u{c}', '\r', '\u{85}', '\u{a0}', '\u{1680}', '\u{2000}',
        '\u{2005}', '\u{200a}', '\u{2028}', '\u{2029}', '\u{202f}', '\u{205f}', '\u{3000}']
    {
        assert!(char_is_whitespace(c));
    }
}

#[test]
fn white_space_agrees_with_std_everywhere() {
    let mut n: u32 = 0;
    while n <= 0x10ffff {
        if let Some(c) = char::from_u32(n) {
            assert_eq!(char_is_whitespace(c), c.is_whitespace());
        }
        n += 1;
    }
}

#[test]
fn trim_drops_white_space_at_both_ends() {
    assert_eq!(trim_chars(&chars("  a b \t\r")), chars("a b"));
    assert_eq!(trim_chars(&chars("a")), chars("a"));
    assert_eq!(trim_chars(&chars(" \n ")), chars(""));
    assert_eq!(trim_chars(&chars("")), chars(""));
    assert_eq!(trim_chars(&chars("\u{a0}x\u{3000}")), chars("x"));
}

#[test]
fn find_first_and_last() {
    let text = chars("a:b:c");
    assert_eq!(find_char(&text, ':'), 1);
    assert_eq!(find_char(&text, 'c'), 4);
    assert_eq!(find_char(&text, 'x'), 5);
    assert_eq!(find_char(&[], 'x'), 0);
    assert_eq!(find_last_char(&text, ':'), Some(3));
    assert_eq!(find_last_char(&text, 'a'), Some(0));
    assert_eq!(find_last_char(&text, 'x'), None);
    assert_eq!(find_last_char(&[], 'x'), None);
}

#[test]
fn split_has_one_piece_more_than_separators() {
    assert_eq!(split_string("a:b:c", ':'), vec!["a", "b", "c"]);
    assert_eq!(split_string("", ':'), vec![""]);
    assert_eq!(split_string(":", ':'), vec!["", ""]);
    assert_eq!(split_string("a::b:", ':'), vec!["a", "", "b", ""]);
    assert_eq!(split_string("abc", ':'), vec!["abc"]);
    assert_eq!(split_chars(&chars("x\ny"), '\n'), vec![chars("x"), chars("y")]);
}

#[test]
fn texts_are_compared_by_their_characters() {
    assert!(chars_are(&chars("Name"), "Name"));
    assert!(!chars_are(&chars("Name"), "Nam"));
    assert!(!chars_are(&chars("Nam"), "Name"));
    assert!(!chars_are(&chars("Name"), "name"));
    assert!(chars_are(&[], ""));
    assert!(chars_eq(&chars("ab"), &chars("ab")));
    assert!(!chars_eq(&chars("ab"), &chars("ac")));
    assert!(!chars_eq(&chars("ab"), &chars("abc")));
}

#[test]
fn order_of_strings() {
    let texts = ["", "A", "B", "a", "ab", "abc", "b", "\u{e9}", "\u{4e16}", "\u{1f600}"];
    for a in texts {
        for b in texts {
            assert_eq!(chars_le(&chars(a), &chars(b)), a <= b);
        }
    }
}

#[test]
fn sorted_strings_agree_with_sort() {
    let mut names: Vec<String> =
        ["pear", "Apple", "apple", "", "fig", "apple", "\u{e9}clair", "Fig 10", "Fig 9"]
            .iter()
            .map(|s| s.to_string())
            .collect();
    let sorted = sorted_strings(&names);
    names.sort();
    assert_eq!(sorted, names);
    assert_eq!(sorted[0], "");
    assert_eq!(sorted_strings(&[]), Vec::<String>::new());
}
