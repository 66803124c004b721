//! The rules on the `Exec` and `TryExec` keys of a desktop entry: the escape
//! sequences of their values, the field codes of the command, the program
//! that a command names and the test whether that program can be run.

use vstd::prelude::*;

use crate::desktop_entry::{DesktopEntry, EntryView};
use crate::text::{
    char_is_whitespace, chars_of, copy_range, find, find_char, is_whitespace, joined, occurs,
    push_all, str_views, string_of, views,
};
use crate::utils::{join_path, joined_path};

verus! {

/// What the character after a backslash stands for: `s` a space, `n` a line
/// feed, `t` a tab, `r` a carriage return, `\` a backslash. After any other
/// character the backslash and the character stand for themselves.
pub open spec fn escape_of(c: char) -> Seq<char> {
    if c == 's' {
        seq![' ']
    } else if c == 'n' {
        seq!['\n']
    } else if c == 't' {
        seq!['\t']
    } else if c == 'r' {
        seq!['\r']
    } else if c == '\\' {
        seq!['\\']
    } else {
        seq!['\\', c]
    }
}

/// `s` with its escape sequences replaced, read from left to right. A
/// backslash that ends the text stands for itself. The characters `"`, `` ` ``
/// and `$` are left as they are, escaped or not.
pub open spec fn unescaped(s: Seq<char>) -> Seq<char>
    decreases s.len(),
{
    if s.len() == 0 {
        s
    } else if s[0] == '\\' && s.len() >= 2 {
        escape_of(s[1]) + unescaped(s.skip(2))
    } else {
        seq![s[0]] + unescaped(s.skip(1))
    }
}

/// What the field code `%code` stands for in the command of the entry named
/// `name` whose file is `location`, run with the arguments `args`: `f` and `u`
/// the first argument, or nothing where there is none; `F` and `U` all
/// arguments with one space between each two; `c` the name; `k` the location;
/// `%` a percent sign; every other code nothing.
pub open spec fn field_code(code: char, args: Seq<Seq<char>>, name: Seq<char>, location: Seq<char>) -> Seq<
    char,
> {
    if code == 'f' || code == 'u' {
        if args.len() > 0 {
            args[0]
        } else {
            Seq::empty()
        }
    } else if code == 'F' || code == 'U' {
        joined(args, seq![' '])
    } else if code == 'c' {
        name
    } else if code == 'k' {
        location
    } else if code == '%' {
        seq!['%']
    } else {
        Seq::empty()
    }
}

/// `template` with each field code replaced by what it stands for, in one
/// pass from left to right: what a code is replaced by is not read again. A
/// percent sign that ends the text stands for itself.
pub open spec fn with_field_codes(
    template: Seq<char>,
    args: Seq<Seq<char>>,
    name: Seq<char>,
    location: Seq<char>,
) -> Seq<char>
    decreases template.len(),
{
    if template.len() == 0 {
        template
    } else if template[0] == '%' && template.len() >= 2 {
        field_code(template[1], args, name, location) + with_field_codes(
            template.skip(2),
            args,
            name,
            location,
        )
    } else {
        seq![template[0]] + with_field_codes(template.skip(1), args, name, location)
    }
}

/// The number of characters at the front of `s` that are not white space.
pub open spec fn word_len(s: Seq<char>) -> nat
    decreases s.len(),
{
    if s.len() > 0 && !is_whitespace(s[0]) {
        1 + word_len(s.skip(1))
    } else {
        0
    }
}

/// `word_len(s)` is the one index `n` such that nothing before it is white
/// space and the character at it, if any, is.
pub proof fn lemma_word_len(s: Seq<char>, n: int)
    requires
        0 <= n <= s.len(),
        forall|j: int| 0 <= j < n ==> !is_whitespace(#[trigger] s[j]),
        n < s.len() ==> is_whitespace(s[n]),
    ensures
        word_len(s) == n,
    decreases s.len(),
{
    if n > 0 {
        assert(!is_whitespace(s[0]));
        let t = s.skip(1);
        assert forall|j: int| 0 <= j < n - 1 implies !is_whitespace(#[trigger] t[j]) by {
            assert(t[j] == s[j + 1]);
        }
        lemma_word_len(t, n - 1);
    }
}

/// The program that the command `s` names. Where `s` starts with `"`, it is
/// what stands between that and the next `"`, or all of `s` where no second
/// `"` follows. Else it is `s` up to its first white space, or all of `s`
/// where it has none.
pub open spec fn arg0(s: Seq<char>) -> Seq<char> {
    if s.len() > 0 && s[0] == '"' {
        let n = find(s.skip(1), '"');
        if n < s.len() - 1 {
            s.subrange(1, n + 1)
        } else {
            s
        }
    } else {
        s.take(word_len(s) as int)
    }
}

/// Whether a file with the permission bits `mode` can be run by anyone: by
/// its owner, by its group or by others.
pub open spec fn executable_mode(mode: u32) -> bool {
    mode & 0o111 != 0
}

/// Whether what was found at a path is a file that can be run: `None` says
/// that nothing was found there.
pub open spec fn executable(found: Option<u32>) -> bool {
    match found {
        Some(mode) => executable_mode(mode),
        None => false,
    }
}

/// Whether one of the places that were looked at holds a file that can be run.
pub open spec fn any_executable(found: Seq<Option<u32>>) -> bool {
    exists|i: int| 0 <= i < found.len() && executable(#[trigger] found[i])
}

/// The paths at which the program of the command `try_exec` is looked for,
/// in this order. A program with a `/` in it is a path by itself. Any other
/// is looked for below each directory of `env_paths`.
pub open spec fn candidates(try_exec: Seq<char>, env_paths: Seq<Seq<char>>) -> Seq<Seq<char>> {
    let program = arg0(try_exec);
    if occurs(program, '/') {
        seq![program]
    } else {
        Seq::new(env_paths.len(), |i: int| joined_path(env_paths[i], program))
    }
}

/// Tells whether what was found at a path is a file that can be run. `found`
/// holds the permission bits of the file at the path, or `None` where there is
/// no file.
pub fn is_executable(found: Option<u32>) -> (b: bool)
    ensures
        b == executable(found),
{
    match found {
        Some(mode) => mode & 0o111 != 0,
        None => false,
    }
}

/// Appends to `out` all of `parts` with one space between each two.
fn push_joined(out: &mut Vec<char>, parts: &[&str])
    ensures
        final(out)@ == old(out)@ + joined(str_views(parts@), seq![' ']),
{
    let ghost all = str_views(parts@);
    let mut i: usize = 0;
    while i < parts.len()
        invariant
            i <= parts.len(),
            all == str_views(parts@),
            out@ == old(out)@ + joined(all.take(i as int), seq![' ']),
        decreases parts.len() - i,
    {
        if i > 0 {
            out.push(' ');
        }
        let part = chars_of(parts[i]);
        push_all(out, part.as_slice());
        proof {
            assert(all.take(i + 1).drop_last() =~= all.take(i as int));
            assert(all.take(i + 1).last() == part@);
            assert(out@ =~= old(out)@ + joined(all.take(i + 1), seq![' ']));
        }
        i += 1;
    }
    proof {
        assert(all.take(i as int) =~= all);
    }
}

impl DesktopEntry {
    /// Replaces the escape sequences of a value.
    pub fn escape_chars(cmd: &str) -> (out: String)
        ensures
            out@ == unescaped(cmd@),
    {
        let old_chars = chars_of(cmd);
        let mut new_chars: Vec<char> = Vec::new();
        let mut i: usize = 0;
        proof {
            assert(old_chars@.skip(0) =~= old_chars@);
            assert(new_chars@ + unescaped(old_chars@) =~= unescaped(old_chars@));
        }
        while i < old_chars.len()
            invariant
                i <= old_chars.len(),
                unescaped(old_chars@) == new_chars@ + unescaped(old_chars@.skip(i as int)),
            decreases old_chars.len() - i,
        {
            let ch = old_chars[i];
            let ghost rest = old_chars@.skip(i as int);
            let ghost done = new_chars@;
            if ch == '\\' && i + 1 < old_chars.len() {
                let next = old_chars[i + 1];
                if next == 's' {
                    new_chars.push(' ');
                } else if next == 'n' {
                    new_chars.push('\n');
                } else if next == 't' {
                    new_chars.push('\t');
                } else if next == 'r' {
                    new_chars.push('\r');
                } else if next == '\\' {
                    new_chars.push('\\');
                } else {
                    new_chars.push(ch);
                    new_chars.push(next);
                }
                proof {
                    assert(rest.skip(2) =~= old_chars@.skip(i + 2));
                    assert(new_chars@ =~= done + escape_of(rest[1]));
                }
                i += 2;
            } else {
                new_chars.push(ch);
                proof {
                    assert(rest.skip(1) =~= old_chars@.skip(i + 1));
                    assert(new_chars@ =~= done + seq![rest[0]]);
                }
                i += 1;
            }
        }
        string_of(new_chars.as_slice())
    }

    /// Replaces the escape sequences in the values of `Exec` and `TryExec`.
    /// Nothing else changes.
    pub fn escape_chars_for_exec_keys(&mut self)
        ensures
            final(self)@ == (EntryView {
                Exec: match old(self)@.Exec {
                    Some(cmd) => Some(unescaped(cmd)),
                    None => None,
                },
                TryExec: match old(self)@.TryExec {
                    Some(cmd) => Some(unescaped(cmd)),
                    None => None,
                },
                ..old(self)@
            }),
            old(self)@.wf() ==> final(self)@.wf(),
    {
        if let Some(cmd) = &self.TryExec {
            let escaped = Self::escape_chars(cmd.as_str());
            self.TryExec = Some(escaped);
        }
        if let Some(cmd) = &self.Exec {
            let escaped = Self::escape_chars(cmd.as_str());
            self.Exec = Some(escaped);
        }
    }

    /// Replaces the field codes of the command `exec_str` of this entry, run
    /// with the arguments `extra_args`.
    pub fn replace_field_codes(&self, exec_str: &str, extra_args: &[&str]) -> (out: String)
        ensures
            out@ == with_field_codes(
                exec_str@,
                str_views(extra_args@),
                self@.Name,
                self@.location,
            ),
    {
        let template = chars_of(exec_str);
        let ghost args = str_views(extra_args@);
        let mut out: Vec<char> = Vec::new();
        let mut i: usize = 0;
        proof {
            let whole = with_field_codes(template@, args, self@.Name, self@.location);
            assert(template@.skip(0) =~= template@);
            assert(out@ + whole =~= whole);
        }
        while i < template.len()
            invariant
                i <= template.len(),
                args == str_views(extra_args@),
                with_field_codes(template@, args, self@.Name, self@.location) == out@
                    + with_field_codes(
                    template@.skip(i as int),
                    args,
                    self@.Name,
                    self@.location,
                ),
            decreases template.len() - i,
        {
            let ch = template[i];
            let ghost rest = template@.skip(i as int);
            let ghost done = out@;
            if ch == '%' && i + 1 < template.len() {
                let code = template[i + 1];
                if code == 'f' || code == 'u' {
                    if extra_args.len() > 0 {
                        let first_arg = chars_of(extra_args[0]);
                        push_all(&mut out, first_arg.as_slice());
                    }
                } else if code == 'F' || code == 'U' {
                    push_joined(&mut out, extra_args);
                } else if code == 'c' {
                    let name = chars_of(self.Name.as_str());
                    push_all(&mut out, name.as_slice());
                } else if code == 'k' {
                    let location = chars_of(self.location.as_str());
                    push_all(&mut out, location.as_slice());
                } else if code == '%' {
                    out.push('%');
                }
                proof {
                    assert(rest.skip(2) =~= template@.skip(i + 2));
                    assert(out@ =~= done + field_code(rest[1], args, self@.Name, self@.location));
                }
                i += 2;
            } else {
                out.push(ch);
                proof {
                    assert(rest.skip(1) =~= template@.skip(i + 1));
                    assert(out@ =~= done + seq![rest[0]]);
                }
                i += 1;
            }
        }
        string_of(out.as_slice())
    }

    /// The program that a command names.
    pub fn get_arg0(exec_str: &str) -> (program: String)
        ensures
            program@ == arg0(exec_str@),
    {
        let chars = chars_of(exec_str);
        if chars.len() > 0 && chars[0] == '"' {
            let tail = copy_range(chars.as_slice(), 1, chars.len());
            let n = find_char(tail.as_slice(), '"');
            proof {
                assert(tail@ =~= chars@.skip(1));
            }
            if n < chars.len() - 1 {
                string_of(copy_range(chars.as_slice(), 1, n + 1).as_slice())
            } else {
                string_of(chars.as_slice())
            }
        } else {
            let mut n: usize = 0;
            while n < chars.len() && !char_is_whitespace(chars[n])
                invariant
                    n <= chars.len(),
                    forall|j: int| 0 <= j < n ==> !is_whitespace(#[trigger] chars@[j]),
                decreases chars.len() - n,
            {
                n += 1;
            }
            proof {
                lemma_word_len(chars@, n as int);
                assert(chars@.take(n as int) =~= chars@.subrange(0, n as int));
            }
            string_of(copy_range(chars.as_slice(), 0, n).as_slice())
        }
    }

    /// The paths at which the program of `TryExec` is looked for, in the
    /// order in which they are tried. There is none where the entry has no
    /// `TryExec`.
    pub fn tryexec_candidates(&self, env_paths: &[String]) -> (paths: Vec<String>)
        ensures
            views(paths@) == match self@.TryExec {
                Some(try_exec) => candidates(try_exec, views(env_paths@)),
                None => Seq::empty(),
            },
    {
        let mut paths: Vec<String> = Vec::new();
        let try_exec = match &self.TryExec {
            Some(val) => val,
            None => {
                assert(views(paths@) =~= Seq::<Seq<char>>::empty());
                return paths;
            },
        };
        let program = Self::get_arg0(try_exec.as_str());
        let program_chars = chars_of(program.as_str());
        if find_char(program_chars.as_slice(), '/') < program_chars.len() {
            paths.push(program);
            assert(views(paths@) =~= seq![arg0(try_exec@)]);
            return paths;
        }
        let ghost wanted = candidates(try_exec@, views(env_paths@));
        let mut i: usize = 0;
        while i < env_paths.len()
            invariant
                i <= env_paths.len(),
                program@ == arg0(try_exec@),
                !occurs(program@, '/'),
                wanted == candidates(try_exec@, views(env_paths@)),
                wanted.len() == env_paths.len(),
                views(paths@) == wanted.take(i as int),
            decreases env_paths.len() - i,
        {
            let path = join_path(env_paths[i].as_str(), program.as_str());
            proof {
                let before = views(paths@);
                let after = views(paths@.push(path));
                assert(before.len() == wanted.take(i as int).len());
                assert(paths@.len() == i);
                assert(views(env_paths@)[i as int] == env_paths@[i as int]@);
                assert(wanted[i as int] == path@);
                assert forall|j: int| 0 <= j < after.len() implies after[j] == wanted.take(
                    i + 1,
                )[j] by {
                    if j < i {
                        assert(before[j] == wanted.take(i as int)[j]);
                    }
                }
                assert(after =~= wanted.take(i + 1));
            }
            paths.push(path);
            i += 1;
        }
        proof {
            assert(wanted.take(i as int) =~= wanted);
        }
        paths
    }

    /// Drops `TryExec` unless its program was found. `found` holds, for the
    /// paths of `tryexec_candidates` that were looked at, the permission bits
    /// of the file at the path, or `None` where there is no file. `TryExec`
    /// stays exactly when one of them is a file that can be run. Nothing else
    /// changes.
    pub fn remove_invalid_tryexec(&mut self, found: &[Option<u32>])
        ensures
            final(self)@ == (EntryView {
                TryExec: if any_executable(found@) {
                    old(self)@.TryExec
                } else {
                    None
                },
                ..old(self)@
            }),
            old(self)@.wf() ==> final(self)@.wf(),
    {
        if self.TryExec.is_none() {
            return ;
        }
        let mut try_exec_is_valid = false;
        let mut i: usize = 0;
        while i < found.len() && !try_exec_is_valid
            invariant
                i <= found.len(),
                try_exec_is_valid == any_executable(found@.take(i as int)),
            decreases found.len() - i,
        {
            try_exec_is_valid = is_executable(found[i]);
            proof {
                let before = found@.take(i as int);
                let after = found@.take(i + 1);
                if try_exec_is_valid {
                    assert(executable(after[i as int]));
                } else if any_executable(after) {
                    let j = choose|j: int| 0 <= j < after.len() && executable(#[trigger] after[j]);
                    assert(before[j] == after[j]);
                }
            }
            i += 1;
        }
        proof {
            if try_exec_is_valid {
                let part = found@.take(i as int);
                let j = choose|j: int| 0 <= j < part.len() && executable(#[trigger] part[j]);
                assert(found@[j] == part[j]);
            } else {
                assert(found@.take(i as int) =~= found@);
            }
        }
        if !try_exec_is_valid {
            self.TryExec = None;
        }
    }

    /// The command to run: the value of `TryExec` where the entry has one,
    /// else the value of `Exec`.
    pub fn get_exec_str(&self) -> (cmd: &str)
        requires
            self@.TryExec is Some || self@.Exec is Some,
        ensures
            cmd@ == match self@.TryExec {
                Some(try_exec) => try_exec,
                None => self@.Exec->0,
            },
    {
        match &self.TryExec {
            Some(val) => val.as_str(),
            None => self.Exec.as_ref().unwrap().as_str(),
        }
    }
}

} // verus!
