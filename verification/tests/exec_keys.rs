use i3_dmenu_desktop_rs::desktop_entry::{DesktopEntry, ModifiedTime};
use i3_dmenu_desktop_rs::exec::is_executable;

fn entry(try_exec: Option<&str>, exec: Option<&str>) -> DesktopEntry {
    DesktopEntry {
        Name: "Text Editor".to_string(),
        Exec: exec.map(|s| s.to_string()),
        TryExec: try_exec.map(|s| s.to_string()),
        Path: None,
        Type: "Application".to_string(),
        NoDisplay: false,
        Hidden: false,
        StartupNotify: true,
        Terminal: false,
        location: "/usr/share/applications/editor.desktop".to_string(),
        mtime: ModifiedTime { secs: 10, nanos: 20 },
    }
}

#[test]
fn test_general_escape_rule() {
    assert_eq!(DesktopEntry::escape_chars(r"a\nb"), "a\nb");
    assert_eq!(DesktopEntry::escape_chars(r"a\\nb"), "a\\nb");
}

#[test]
fn escape_chars_knows_five_escapes() {
    assert_eq!(DesktopEntry::escape_chars(r"a\sb"), "a b");
    assert_eq!(DesktopEntry::escape_chars(r"a\tb"), "a\tb");
    assert_eq!(DesktopEntry::escape_chars(r"a\rb"), "a\rb");
    assert_eq!(DesktopEntry::escape_chars(r"\s\n\t\r\\"), " \n\t\r\\");
}

#[test]
fn escape_chars_keeps_unknown_escapes() {
    assert_eq!(DesktopEntry::escape_chars(r"a\xb"), r"a\xb");
    assert_eq!(DesktopEntry::escape_chars(r#"say \"hi\" \$HOME \`x\`"#), r#"say \"hi\" \$HOME \`x\`"#);
}

#[test]
fn escape_chars_keeps_trailing_backslash() {
    assert_eq!(DesktopEntry::escape_chars("abc\\"), "abc\\");
    assert_eq!(DesktopEntry::escape_chars("\\"), "\\");
    assert_eq!(DesktopEntry::escape_chars(""), "");
}

#[test]
fn escape_chars_reads_left_to_right() {
    // `\\` is read first, so the `n` behind it is a plain letter.
    assert_eq!(DesktopEntry::escape_chars(r"\\n"), "\\n");
    assert_eq!(DesktopEntry::escape_chars(r"\\\n"), "\\\n");
}

#[test]
fn escape_chars_for_exec_keys_changes_both_keys_only() {
    let mut app = entry(Some(r"my\sprog"), Some(r"my\sprog --flag\\"));
    app.Name = r"A\sB".to_string();
    app.Path = Some(r"/tmp/a\sb".to_string());
    app.escape_chars_for_exec_keys();
    assert_eq!(app.TryExec.as_deref(), Some("my prog"));
    assert_eq!(app.Exec.as_deref(), Some("my prog --flag\\"));
    assert_eq!(app.Name, r"A\sB");
    assert_eq!(app.Path.as_deref(), Some(r"/tmp/a\sb"));
}

#[test]
fn escape_chars_for_exec_keys_leaves_missing_keys_missing() {
    let mut app = entry(None, None);
    app.escape_chars_for_exec_keys();
    assert_eq!(app.TryExec, None);
    assert_eq!(app.Exec, None);
}

#[test]
fn field_codes_icon_is_elided() {
    let app = entry(None, Some("app"));
    assert_eq!(app.replace_field_codes("app %f %i end", &["/tmp/x"]), "app /tmp/x  end");
}

#[test]
fn field_codes_single_argument_codes() {
    let app = entry(None, Some("app"));
    assert_eq!(app.replace_field_codes("run %f", &["a", "b"]), "run a");
    assert_eq!(app.replace_field_codes("run %u", &["a", "b"]), "run a");
    assert_eq!(app.replace_field_codes("run %f.", &[]), "run .");
    assert_eq!(app.replace_field_codes("run %u.", &[]), "run .");
}

#[test]
fn field_codes_all_argument_codes() {
    let app = entry(None, Some("app"));
    assert_eq!(app.replace_field_codes("run %F", &["a", "b", "c"]), "run a b c");
    assert_eq!(app.replace_field_codes("run %U", &["a", "b"]), "run a b");
    assert_eq!(app.replace_field_codes("run %F.", &["only"]), "run only.");
    assert_eq!(app.replace_field_codes("run %U.", &[]), "run .");
}

#[test]
fn field_codes_name_and_location() {
    let app = entry(None, Some("app"));
    assert_eq!(app.replace_field_codes("x --title %c", &[]), "x --title Text Editor");
    assert_eq!(
        app.replace_field_codes("x %k", &[]),
        "x /usr/share/applications/editor.desktop"
    );
}

#[test]
fn field_codes_deprecated_and_unknown_are_dropped() {
    let app = entry(None, Some("app"));
    assert_eq!(app.replace_field_codes("a%db%Dc%nd%Ne%vf%mg", &["z"]), "abcdefg");
    assert_eq!(app.replace_field_codes("a%zb%1c", &["z"]), "abc");
}

#[test]
fn field_codes_percent() {
    let app = entry(None, Some("app"));
    assert_eq!(app.replace_field_codes("100%%", &[]), "100%");
    assert_eq!(app.replace_field_codes("%%f", &["x"]), "%f");
    assert_eq!(app.replace_field_codes("end%", &["x"]), "end%");
    assert_eq!(app.replace_field_codes("%", &[]), "%");
    assert_eq!(app.replace_field_codes("", &["x"]), "");
}

#[test]
fn field_codes_are_not_read_again() {
    let app = entry(None, Some("app"));
    assert_eq!(app.replace_field_codes("run %f", &["%c"]), "run %c");
    assert_eq!(app.replace_field_codes("run %F", &["%k", "%%"]), "run %k %%");
}

#[test]
fn arg0_of_plain_command() {
    assert_eq!(DesktopEntry::get_arg0("firefox"), "firefox");
    assert_eq!(DesktopEntry::get_arg0("firefox --new-window %u"), "firefox");
    assert_eq!(DesktopEntry::get_arg0("a\tb"), "a");
    assert_eq!(DesktopEntry::get_arg0(""), "");
    assert_eq!(DesktopEntry::get_arg0(" x"), "");
}

#[test]
fn arg0_of_quoted_command() {
    assert_eq!(DesktopEntry::get_arg0(r#""my prog" --flag"#), "my prog");
    assert_eq!(DesktopEntry::get_arg0(r#""my prog""#), "my prog");
    assert_eq!(DesktopEntry::get_arg0(r#""" x"#), "");
    assert_eq!(DesktopEntry::get_arg0(r#""a"b"#), "a");
}

#[test]
fn arg0_of_unterminated_quote_is_the_whole_string() {
    assert_eq!(DesktopEntry::get_arg0(r#""my prog --flag"#), r#""my prog --flag"#);
    assert_eq!(DesktopEntry::get_arg0(r#"""#), r#"""#);
}

#[test]
fn tryexec_candidates_follow_the_search_path() {
    let app = entry(Some("editor --check"), Some("editor %f"));
    let paths = vec!["/usr/bin".to_string(), "/bin/".to_string(), "".to_string()];
    assert_eq!(
        app.tryexec_candidates(&paths),
        vec!["/usr/bin/editor".to_string(), "/bin/editor".to_string(), "/editor".to_string()]
    );
    assert_eq!(app.tryexec_candidates(&[]), Vec::<String>::new());
}

#[test]
fn tryexec_candidates_of_a_path_is_the_path() {
    let app = entry(Some("/opt/editor/bin/editor --check"), Some("editor %f"));
    let paths = vec!["/usr/bin".to_string(), "/bin".to_string()];
    assert_eq!(app.tryexec_candidates(&paths), vec!["/opt/editor/bin/editor".to_string()]);
    let app = entry(Some("./editor"), Some("editor %f"));
    assert_eq!(app.tryexec_candidates(&paths), vec!["./editor".to_string()]);
}

#[test]
fn tryexec_candidates_without_tryexec() {
    let app = entry(None, Some("editor %f"));
    let paths = vec!["/usr/bin".to_string()];
    assert_eq!(app.tryexec_candidates(&paths), Vec::<String>::new());
}

#[test]
fn executable_needs_one_execute_bit() {
    assert!(is_executable(Some(0o100755)));
    assert!(is_executable(Some(0o100100)));
    assert!(is_executable(Some(0o100010)));
    assert!(is_executable(Some(0o100001)));
    assert!(!is_executable(Some(0o100644)));
    assert!(!is_executable(Some(0)));
    assert!(!is_executable(None));
}

#[test]
fn remove_invalid_tryexec_keeps_a_found_program() {
    let mut app = entry(Some("editor"), Some("editor %f"));
    app.remove_invalid_tryexec(&[None, Some(0o100644), Some(0o100755)]);
    assert_eq!(app.TryExec.as_deref(), Some("editor"));
    assert_eq!(app.Exec.as_deref(), Some("editor %f"));
}

#[test]
fn remove_invalid_tryexec_drops_a_missing_program() {
    let mut app = entry(Some("editor"), Some("editor %f"));
    app.remove_invalid_tryexec(&[None, Some(0o100644)]);
    assert_eq!(app.TryExec, None);
    assert_eq!(app.Exec.as_deref(), Some("editor %f"));
    let mut app = entry(Some("editor"), Some("editor %f"));
    app.remove_invalid_tryexec(&[]);
    assert_eq!(app.TryExec, None);
}

#[test]
fn remove_invalid_tryexec_without_tryexec() {
    let mut app = entry(None, Some("editor %f"));
    app.remove_invalid_tryexec(&[Some(0o100755)]);
    assert_eq!(app.TryExec, None);
    assert_eq!(app.Exec.as_deref(), Some("editor %f"));
}

#[test]
fn exec_str_prefers_tryexec() {
    let app = entry(Some("probe"), Some("run %f"));
    assert_eq!(app.get_exec_str(), "probe");
    let app = entry(None, Some("run %f"));
    assert_eq!(app.get_exec_str(), "run %f");
    let app = entry(Some("probe"), None);
    assert_eq!(app.get_exec_str(), "probe");
}
