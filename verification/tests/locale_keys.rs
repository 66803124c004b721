use i3_dmenu_desktop_rs::locale::get_locale_keys;

#[test]
fn test_locale_keys() {
    let test_cases = vec![
        ("en_CA.UTF8", vec!["en_CA".to_string(), "en".to_string()]),
        ("en_CA", vec!["en_CA".to_string(), "en".to_string()]),
        ("en_CA@Latn", vec!["en_CA@Latn".to_string(), "en_CA".to_string(), "en@Latn".to_string(), "en".to_string()]),
        ("en.UTF8", vec!["en".to_string()]),
        ("en", vec!["en".to_string()]),
    ];
    for (lc_messages, locale_keys) in test_cases {
        assert_eq!(get_locale_keys(lc_messages), locale_keys);
    }
}

#[test]
fn locale_keys_of_language_and_modifier() {
    assert_eq!(get_locale_keys("sr@Latn"), vec!["sr@Latn".to_string(), "sr".to_string()]);
}

#[test]
fn locale_keys_drop_the_encoding_before_the_modifier() {
    assert_eq!(
        get_locale_keys("sr_RS.UTF-8@Latn"),
        vec!["sr_RS@Latn".to_string(), "sr_RS".to_string(), "sr@Latn".to_string(), "sr".to_string()]
    );
    assert_eq!(get_locale_keys("sr.UTF-8@Latn"), vec!["sr@Latn".to_string(), "sr".to_string()]);
}

#[test]
fn locale_keys_of_odd_locales() {
    assert_eq!(get_locale_keys("C"), vec!["C".to_string()]);
    assert_eq!(get_locale_keys(""), vec!["".to_string()]);
    // A `.` before `@` opens no encoding.
    assert_eq!(get_locale_keys("en.@x"), vec!["en.@x".to_string(), "en.".to_string()]);
    // A `_` before `@` opens no country.
    assert_eq!(get_locale_keys("en_@x"), vec!["en_@x".to_string(), "en".to_string()]);
    // An empty language still counts.
    assert_eq!(
        get_locale_keys("_CA@x"),
        vec!["_CA@x".to_string(), "_CA".to_string(), "@x".to_string(), "".to_string()]
    );
}

#[test]
fn locale_keys_of_a_locale_with_a_dot_in_its_modifier() {
    // Without an encoding before it, the dot opens one.
    assert_eq!(
        get_locale_keys("en_CA@a.b"),
        vec!["en_CA@a".to_string(), "en_CA".to_string(), "en@a".to_string(), "en".to_string()]
    );
    assert_eq!(
        get_locale_keys("en_CA.UTF-8@a.b"),
        vec!["en_CA@a.b".to_string(), "en_CA".to_string(), "en@a.b".to_string(), "en".to_string()]
    );
}

#[test]
fn locale_keys_stop_at_a_line_feed() {
    assert_eq!(
        get_locale_keys("en_CA@La\ntn"),
        vec![
            "en_CA@La\ntn".to_string(),
            "en_CA\ntn".to_string(),
            "en@La\ntn".to_string(),
            "en\ntn".to_string()
        ]
    );
}
