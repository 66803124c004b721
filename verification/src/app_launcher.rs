//! What the chooser is given and what it hands back, and the command that
//! starts the chosen application through the window manager.

use std::io;
use std::str::Utf8Error;

use vstd::prelude::*;
use vstd::utf8::{decode_utf8, valid_utf8};

use crate::desktop_entry::{io_error_text, DesktopEntry, EntryView};
use crate::exec::with_field_codes;
use crate::text::{
    chars_of, copy_range, count_trailing_whitespace, joined, push_str, str_views, string_of,
    trim_end, views,
};

verus! {

/// An error in the encoding of a text, carried through unread.
#[verifier::external_type_specification]
#[verifier::external_body]
pub struct ExUtf8Error(Utf8Error);

/// `core::str::from_utf8` of the standard library reads bytes as a text. It
/// returns `Ok` exactly when the bytes are valid UTF-8, and the text is then
/// the one that the bytes encode. Verus takes this on trust.
pub assume_specification<'a>[ core::str::from_utf8 ](v: &'a [u8]) -> (r: Result<&'a str, Utf8Error>)
    ensures
        r is Ok <==> valid_utf8(v@),
        r matches Ok(s) ==> s@ == decode_utf8(v@),
;

/// `s` with a backslash before each `"` and each backslash.
pub open spec fn escaped(s: Seq<char>) -> Seq<char>
    decreases s.len(),
{
    if s.len() == 0 {
        s
    } else if s[0] == '"' || s[0] == '\\' {
        seq!['\\', s[0]] + escaped(s.skip(1))
    } else {
        seq![s[0]] + escaped(s.skip(1))
    }
}

/// `s` as one quoted word of a command of the window manager: between two
/// `"`, with a backslash before each `"` and each backslash of its own.
pub open spec fn quoted(s: Seq<char>) -> Seq<char> {
    seq!['"'] + escaped(s) + seq!['"']
}

/// `c` put in front of a text that was read, if one was.
pub open spec fn prepend(c: char, rest: Option<Seq<char>>) -> Option<Seq<char>> {
    match rest {
        Some(s) => Some(seq![c] + s),
        None => None,
    }
}

/// What a quoted word says, read from behind its opening `"`: the text up
/// to the first `"` without a backslash before it, where `\"` stands for `"`
/// and `\\` for a backslash. `None` where the text has no closing `"` or
/// goes on behind it.
pub open spec fn read_quoted(q: Seq<char>) -> Option<Seq<char>>
    decreases q.len(),
{
    if q.len() == 0 {
        None
    } else if q[0] == '"' {
        if q.len() == 1 {
            Some(Seq::empty())
        } else {
            None
        }
    } else if q[0] == '\\' && q.len() >= 2 && (q[1] == '"' || q[1] == '\\') {
        prepend(q[1], read_quoted(q.skip(2)))
    } else {
        prepend(q[0], read_quoted(q.skip(1)))
    }
}

/// What the quoted word `q` says, or `None` where `q` is not one quoted word.
pub open spec fn unquoted(q: Seq<char>) -> Option<Seq<char>> {
    if q.len() > 0 && q[0] == '"' {
        read_quoted(q.skip(1))
    } else {
        None
    }
}

/// Reading an escaped text with its closing `"` gives the text back.
proof fn lemma_read_escaped(s: Seq<char>)
    ensures
        read_quoted(escaped(s) + seq!['"']) == Some(s),
    decreases s.len(),
{
    let q = escaped(s) + seq!['"'];
    if s.len() == 0 {
        assert(q =~= seq!['"']);
        assert(read_quoted(q) == Some(Seq::<char>::empty()));
        assert(s =~= Seq::<char>::empty());
    } else {
        let rest = escaped(s.skip(1)) + seq!['"'];
        lemma_read_escaped(s.skip(1));
        if s[0] == '"' || s[0] == '\\' {
            assert(q[0] == '\\');
            assert(q[1] == s[0]);
            assert(q.skip(2) =~= rest);
        } else {
            assert(q[0] == s[0]);
            assert(q.skip(1) =~= rest);
        }
        assert(seq![s[0]] + s.skip(1) =~= s);
    }
}

/// Quoting a text and reading the quoted word gives the text back, whatever
/// the text holds.
pub proof fn lemma_unquote_quote(s: Seq<char>)
    ensures
        unquoted(quoted(s)) == Some(s),
{
    let q = quoted(s);
    assert(q[0] == '"');
    assert(q.skip(1) =~= escaped(s) + seq!['"']);
    lemma_read_escaped(s);
}

/// Quotes a command for the `exec` command of the window manager.
pub fn escape_for_i3_exec(cmd: &str) -> (out: String)
    ensures
        out@ == quoted(cmd@),
{
    let chars = chars_of(cmd);
    let mut new_chars: Vec<char> = Vec::new();
    new_chars.push('"');
    let mut i: usize = 0;
    proof {
        assert(chars@.skip(0) =~= chars@);
    }
    while i < chars.len()
        invariant
            i <= chars.len(),
            seq!['"'] + escaped(chars@) == new_chars@ + escaped(chars@.skip(i as int)),
        decreases chars.len() - i,
    {
        let ch = chars[i];
        let ghost rest = chars@.skip(i as int);
        let ghost done = new_chars@;
        if ch == '"' || ch == '\\' {
            new_chars.push('\\');
        }
        new_chars.push(ch);
        proof {
            assert(rest.skip(1) =~= chars@.skip(i + 1));
            if ch == '"' || ch == '\\' {
                assert(new_chars@ =~= done + seq!['\\', rest[0]]);
            } else {
                assert(new_chars@ =~= done + seq![rest[0]]);
            }
        }
        i += 1;
    }
    new_chars.push('"');
    proof {
        assert(new_chars@ =~= quoted(cmd@));
    }
    string_of(new_chars.as_slice())
}

/// Reads one quoted word: the inverse of `escape_for_i3_exec`.
pub fn unescape_from_i3_exec(word: &str) -> (out: Option<String>)
    ensures
        match unquoted(word@) {
            Some(s) => out matches Some(text) && text@ == s,
            None => out is None,
        },
{
    let chars = chars_of(word);
    if chars.len() == 0 || chars[0] != '"' {
        return None;
    }
    let ghost body = chars@.skip(1);
    let mut text: Vec<char> = Vec::new();
    let mut i: usize = 1;
    proof {
        assert(read_quoted(body) == match read_quoted(chars@.skip(1)) {
            Some(s) => Some(text@ + s),
            None => None,
        }) by {
            match read_quoted(body) {
                Some(s) => assert(text@ + s =~= s),
                None => {},
            }
        }
    }
    while i < chars.len()
        invariant
            1 <= i <= chars.len(),
            chars@ == word@,
            chars@[0] == '"',
            body == chars@.skip(1),
            read_quoted(body) == match read_quoted(chars@.skip(i as int)) {
                Some(s) => Some(text@ + s),
                None => None,
            },
        decreases chars.len() - i,
    {
        let ch = chars[i];
        let ghost rest = chars@.skip(i as int);
        let ghost done = text@;
        if ch == '"' {
            if i + 1 == chars.len() {
                proof {
                    assert(text@ + Seq::<char>::empty() =~= text@);
                }
                return Some(string_of(text.as_slice()));
            } else {
                return None;
            }
        }
        if ch == '\\' && i + 1 < chars.len() && (chars[i + 1] == '"' || chars[i + 1] == '\\') {
            text.push(chars[i + 1]);
            proof {
                assert(rest.skip(2) =~= chars@.skip(i + 2));
                match read_quoted(rest.skip(2)) {
                    Some(s) => assert(done + (seq![rest[1]] + s) =~= text@ + s),
                    None => {},
                }
            }
            i += 2;
        } else {
            text.push(ch);
            proof {
                assert(rest.skip(1) =~= chars@.skip(i + 1));
                match read_quoted(rest.skip(1)) {
                    Some(s) => assert(done + (seq![rest[0]] + s) =~= text@ + s),
                    None => {},
                }
            }
            i += 1;
        }
    }
    None
}

/// Why the chooser gave no choice.
#[derive(Debug)]
pub enum ChildProcessError {
    /// The chooser could not be started or spoken to.
    IoError(io::Error),
    /// What the chooser wrote is not a text.
    BadOutputError(Utf8Error),
    /// The chooser ended in failure; the text says so.
    ProcessFailed(String),
}

impl From<io::Error> for ChildProcessError {
    fn from(error: io::Error) -> (r: Self) {
        Self::IoError(error)
    }
}

impl vstd::std_specs::convert::FromSpecImpl<io::Error> for ChildProcessError {
    open spec fn obeys_from_spec() -> bool {
        true
    }

    open spec fn from_spec(error: io::Error) -> Self {
        ChildProcessError::IoError(error)
    }
}

impl From<Utf8Error> for ChildProcessError {
    fn from(error: Utf8Error) -> (r: Self) {
        Self::BadOutputError(error)
    }
}

impl vstd::std_specs::convert::FromSpecImpl<Utf8Error> for ChildProcessError {
    open spec fn obeys_from_spec() -> bool {
        true
    }

    open spec fn from_spec(error: Utf8Error) -> Self {
        ChildProcessError::BadOutputError(error)
    }
}

/// The text by which an encoding error describes itself: what `Display` of
/// `core::str::Utf8Error` writes. Nothing is claimed of the text.
#[verifier::external_body]
fn utf8_error_text(err: &Utf8Error) -> String {
    format!("{}", err)
}

impl ChildProcessError {
    /// The error in words: for a failed chooser the text that it carries.
    pub fn message(&self) -> (text: String)
        ensures
            self matches ChildProcessError::ProcessFailed(msg) ==> text@ == msg@,
    {
        match self {
            ChildProcessError::IoError(err) => io_error_text(err),
            ChildProcessError::BadOutputError(err) => utf8_error_text(err),
            ChildProcessError::ProcessFailed(msg) => msg.clone(),
        }
    }
}

/// What the chooser reads: the names, one on each line.
pub fn dmenu_input(app_names: &[String]) -> (input: String)
    ensures
        input@ == joined(views(app_names@), seq!['\n']),
{
    let ghost all = views(app_names@);
    let mut out: Vec<char> = Vec::new();
    let mut i: usize = 0;
    while i < app_names.len()
        invariant
            i <= app_names.len(),
            all == views(app_names@),
            out@ == joined(all.take(i as int), seq!['\n']),
        decreases app_names.len() - i,
    {
        let ghost done = out@;
        if i > 0 {
            out.push('\n');
        }
        push_str(&mut out, app_names[i].as_str());
        proof {
            assert(all.take(i + 1).drop_last() =~= all.take(i as int));
            assert(all.take(i + 1).last() == app_names@[i as int]@);
            assert(out@ =~= joined(all.take(i + 1), seq!['\n']));
        }
        i += 1;
    }
    proof {
        assert(all.take(i as int) =~= all);
    }
    string_of(out.as_slice())
}

/// The choice that the chooser made, from how it ended and what it wrote.
/// A chooser that ended in failure made none. Else what it wrote must be
/// valid UTF-8, and the choice is that text without the white space at its
/// end.
pub fn dmenu_choice(success: bool, stdout: &[u8]) -> (r: Result<String, ChildProcessError>)
    ensures
        !success ==> (r matches Err(ChildProcessError::ProcessFailed(msg)) && msg@
            == "dmenu process failed"@),
        success && !valid_utf8(stdout@) ==> r matches Err(ChildProcessError::BadOutputError(_)),
        success && valid_utf8(stdout@) ==> (r matches Ok(choice) && choice@ == trim_end(
            decode_utf8(stdout@),
        )),
{
    if !success {
        return Err(ChildProcessError::ProcessFailed("dmenu process failed".to_owned()));
    }
    let output = match core::str::from_utf8(stdout) {
        Ok(text) => text,
        Err(err) => {
            return Err(ChildProcessError::from(err));
        },
    };
    let chars = chars_of(output);
    let n = count_trailing_whitespace(chars.as_slice());
    let kept = copy_range(chars.as_slice(), 0, chars.len() - n);
    proof {
        assert(kept@ =~= trim_end(chars@));
    }
    Ok(string_of(kept.as_slice()))
}

/// The command of the window manager that runs `exec_str`: the word `exec`,
/// the option `--no-startup-id` unless the start is to be notified, and the
/// quoted command, handed to a terminal where one is asked for.
pub open spec fn i3_command(exec_str: Seq<char>, terminal: bool, startup_notify: bool) -> Seq<
    char,
> {
    let cmd = if terminal {
        "i3-sensible-terminal -e "@ + quoted(exec_str)
    } else {
        quoted(exec_str)
    };
    let no_startup_notify = if startup_notify {
        ""@
    } else {
        "--no-startup-id"@
    };
    "exec "@ + no_startup_notify + " "@ + cmd
}

/// The command that an entry runs: the value of `TryExec` where it has one,
/// else the value of `Exec`.
pub open spec fn effective_exec(app: EntryView) -> Seq<char> {
    match app.TryExec {
        Some(try_exec) => try_exec,
        None => app.Exec->0,
    }
}

/// The command of the window manager that starts `app` with the arguments
/// `args`: the field codes of the entry's command are replaced, and the
/// result is quoted as one word.
pub open spec fn launch_command(app: EntryView, args: Seq<Seq<char>>) -> Seq<char> {
    i3_command(
        with_field_codes(effective_exec(app), args, app.Name, app.location),
        app.Terminal,
        app.StartupNotify,
    )
}

/// The arguments with which `i3-msg` runs the command `cmd` that no desktop
/// entry stands for: the word `exec` and the quoted command.
pub fn launch_i3_cmd_without_desktop_entry(cmd: &str) -> (args: Vec<String>)
    ensures
        views(args@) == seq!["exec"@, quoted(cmd@)],
{
    let i3_cmd = escape_for_i3_exec(cmd);
    let mut args: Vec<String> = Vec::new();
    args.push("exec".to_owned());
    args.push(i3_cmd);
    proof {
        assert(views(args@) =~= seq!["exec"@, quoted(cmd@)]);
    }
    args
}

/// The one argument with which `i3-msg` runs the command
/// `desktop_entry_exec_str` of `app`.
pub fn launch_i3_cmd(desktop_entry_exec_str: &str, app: &DesktopEntry) -> (arg: String)
    ensures
        arg@ == i3_command(desktop_entry_exec_str@, app@.Terminal, app@.StartupNotify),
{
    let i3_cmd = escape_for_i3_exec(desktop_entry_exec_str);
    let mut out: Vec<char> = Vec::new();
    push_str(&mut out, "exec ");
    push_str(&mut out, if app.StartupNotify {
        ""
    } else {
        "--no-startup-id"
    });
    push_str(&mut out, " ");
    if app.Terminal {
        push_str(&mut out, "i3-sensible-terminal -e ");
    }
    push_str(&mut out, i3_cmd.as_str());
    proof {
        assert(out@ =~= i3_command(desktop_entry_exec_str@, app@.Terminal, app@.StartupNotify));
    }
    string_of(out.as_slice())
}

/// The arguments with which `i3-msg` starts `app` with the arguments
/// `extra_args`: one argument, the command of the window manager.
pub fn launch_desktop_entry(app: &DesktopEntry, extra_args: &[&str]) -> (args: Vec<String>)
    requires
        app@.TryExec is Some || app@.Exec is Some,
    ensures
        views(args@) == seq![launch_command(app@, str_views(extra_args@))],
{
    let cmd = app.replace_field_codes(app.get_exec_str(), extra_args);
    let arg = launch_i3_cmd(cmd.as_str(), app);
    let mut args: Vec<String> = Vec::new();
    args.push(arg);
    proof {
        assert(views(args@) =~= seq![launch_command(app@, str_views(extra_args@))]);
    }
    args
}

} // verus!
