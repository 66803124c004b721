use i3_dmenu_desktop_rs::app_launcher::{
    dmenu_choice, dmenu_input, escape_for_i3_exec, launch_desktop_entry, launch_i3_cmd,
    launch_i3_cmd_without_desktop_entry, unescape_from_i3_exec, ChildProcessError,
};
use i3_dmenu_desktop_rs::desktop_entry::{DesktopEntry, ModifiedTime};

fn app(exec: &str) -> DesktopEntry {
    DesktopEntry {
        Name: "Notes".to_string(),
        Exec: Some(exec.to_string()),
        TryExec: None,
        Path: None,
        Type: "Application".to_string(),
        NoDisplay: false,
        Hidden: false,
        StartupNotify: true,
        Terminal: false,
        location: "/apps/notes.desktop".to_string(),
        mtime: ModifiedTime { secs: 0, nanos: 0 },
    }
}

#[test]
fn escape_for_i3_exec_plain() {
    assert_eq!(escape_for_i3_exec("notify-send hello"), r#""notify-send hello""#);
    assert_eq!(escape_for_i3_exec(""), r#""""#);
}

#[test]
fn escape_for_i3_exec_quotes() {
    assert_eq!(
        escape_for_i3_exec(r#"notify-send "hello, world""#),
        r#""notify-send \"hello, world\"""#
    );
}

#[test]
fn escape_for_i3_exec_escaped_quotes() {
    assert_eq!(
        escape_for_i3_exec(r#"notify-send "abc \"def\" ghi""#),
        r#""notify-send \"abc \\\"def\\\" ghi\"""#
    );
}

#[test]
fn escape_for_i3_exec_backslashes() {
    assert_eq!(escape_for_i3_exec(r"a\b"), r#""a\\b""#);
    assert_eq!(escape_for_i3_exec("\\"), r#""\\""#);
    assert_eq!(escape_for_i3_exec("\""), r#""\"""#);
}

#[test]
fn unescape_gives_the_text_back() {
    let texts = [
        "",
        "notify-send hello",
        r#"notify-send "hello, world""#,
        r#"notify-send "abc \"def\" ghi""#,
        "\\",
        "\"",
        "\\\"",
        "\"\\",
        "tab\tline\nfeed \u{e9}\u{4e16}",
        r"C:\path\to\file",
    ];
    for text in texts {
        let quoted = escape_for_i3_exec(text);
        assert_ne!(quoted, text);
        assert_eq!(unescape_from_i3_exec(&quoted).as_deref(), Some(text));
    }
}

#[test]
fn unescape_reads_one_quoted_word_only() {
    assert_eq!(unescape_from_i3_exec(r#""a b""#).as_deref(), Some("a b"));
    assert_eq!(unescape_from_i3_exec(r#""a\xb""#).as_deref(), Some(r"a\xb"));
    assert_eq!(unescape_from_i3_exec(""), None);
    assert_eq!(unescape_from_i3_exec("a"), None);
    assert_eq!(unescape_from_i3_exec(r#"""#), None);
    assert_eq!(unescape_from_i3_exec(r#""a"#), None);
    assert_eq!(unescape_from_i3_exec(r#""a\""#), None);
    assert_eq!(unescape_from_i3_exec(r#""a"b""#), None);
    assert_eq!(unescape_from_i3_exec(r#""a" "#), None);
}

#[test]
fn dmenu_input_is_one_name_per_line() {
    let names = vec!["Firefox".to_string(), "Files".to_string(), "Text Editor".to_string()];
    assert_eq!(dmenu_input(&names), "Firefox\nFiles\nText Editor");
    assert_eq!(dmenu_input(&names[..1]), "Firefox");
    assert_eq!(dmenu_input(&[]), "");
    assert_eq!(dmenu_input(&["".to_string(), "".to_string()]), "\n");
}

#[test]
fn dmenu_choice_drops_trailing_white_space() {
    assert_eq!(dmenu_choice(true, b"Firefox\n").unwrap(), "Firefox");
    assert_eq!(dmenu_choice(true, b"Firefox --private \t\r\n").unwrap(), "Firefox --private");
    assert_eq!(dmenu_choice(true, b"  Firefox").unwrap(), "  Firefox");
    assert_eq!(dmenu_choice(true, b"").unwrap(), "");
    assert_eq!(dmenu_choice(true, b" \n").unwrap(), "");
    assert_eq!(dmenu_choice(true, "Caf\u{e9}\u{a0}\u{3000}".as_bytes()).unwrap(), "Caf\u{e9}");
}

#[test]
fn dmenu_choice_of_a_failed_chooser() {
    match dmenu_choice(false, b"Firefox\n") {
        Err(ChildProcessError::ProcessFailed(msg)) => assert_eq!(msg, "dmenu process failed"),
        _ => panic!("the chooser did not fail"),
    }
    let err = dmenu_choice(false, &[0xff]).unwrap_err();
    assert_eq!(err.message(), "dmenu process failed");
}

#[test]
fn dmenu_choice_of_bad_output() {
    let err = dmenu_choice(true, &[b'a', 0xff, b'b']).unwrap_err();
    assert!(matches!(err, ChildProcessError::BadOutputError(_)));
    assert!(!err.message().is_empty());
    assert!(matches!(
        dmenu_choice(true, &[0xc3]),
        Err(ChildProcessError::BadOutputError(_))
    ));
}

#[test]
fn child_process_error_from_io_error() {
    let err = ChildProcessError::from(std::io::Error::new(std::io::ErrorKind::Other, "no dmenu"));
    assert!(matches!(err, ChildProcessError::IoError(_)));
    assert_eq!(err.message(), "no dmenu");
}

#[test]
fn child_process_error_from_utf8_error() {
    let bytes = vec![0xffu8];
    let utf8_err = std::str::from_utf8(&bytes).unwrap_err();
    let expected = format!("{}", utf8_err);
    let err = ChildProcessError::from(utf8_err);
    assert!(matches!(err, ChildProcessError::BadOutputError(_)));
    assert_eq!(err.message(), expected);
}

#[test]
fn launch_without_desktop_entry() {
    assert_eq!(
        launch_i3_cmd_without_desktop_entry(r#"notify-send "hi""#),
        vec!["exec".to_string(), r#""notify-send \"hi\"""#.to_string()]
    );
}

#[test]
fn launch_i3_cmd_with_startup_notification() {
    let notes = app("notes");
    assert_eq!(launch_i3_cmd("notes --new", &notes), r#"exec  "notes --new""#);
}

#[test]
fn launch_i3_cmd_without_startup_notification() {
    let mut notes = app("notes");
    notes.StartupNotify = false;
    assert_eq!(launch_i3_cmd("notes", &notes), r#"exec --no-startup-id "notes""#);
}

#[test]
fn launch_i3_cmd_in_terminal() {
    let mut notes = app("notes");
    notes.Terminal = true;
    assert_eq!(launch_i3_cmd("notes", &notes), r#"exec  i3-sensible-terminal -e "notes""#);
    notes.StartupNotify = false;
    assert_eq!(
        launch_i3_cmd(r#"sh -c "top""#, &notes),
        r#"exec --no-startup-id i3-sensible-terminal -e "sh -c \"top\"""#
    );
}

#[test]
fn launch_desktop_entry_replaces_field_codes_and_quotes() {
    let notes = app(r#"notes --title "%c" %f"#);
    assert_eq!(
        launch_desktop_entry(&notes, &["/tmp/a b.txt"]),
        vec![r#"exec  "notes --title \"Notes\" /tmp/a b.txt""#.to_string()]
    );
    assert_eq!(
        launch_desktop_entry(&notes, &[]),
        vec![r#"exec  "notes --title \"Notes\" ""#.to_string()]
    );
}

#[test]
fn launch_desktop_entry_prefers_tryexec() {
    let mut notes = app("notes %U");
    notes.TryExec = Some("notes-probe %k".to_string());
    assert_eq!(
        launch_desktop_entry(&notes, &["x"]),
        vec![r#"exec  "notes-probe /apps/notes.desktop""#.to_string()]
    );
}
