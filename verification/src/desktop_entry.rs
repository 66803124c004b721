//! Desktop entries: the record of one application and the parser of the
//! file format.
//!
//! A desktop entry file is read line by line. Only the lines of the section
//! `[Desktop Entry]` count, and of those only the lines `key = value`. A line
//! of any other shape is passed over. What is missing is found at the end,
//! when the keys that were read are made into an entry.

use std::io;

use vstd::prelude::*;

use crate::text::{
    char_is_whitespace, chars_are, chars_of, copy_range, find, find_char, is_whitespace,
    leading_whitespace, lemma_find, lemma_leading_whitespace, split, split_chars, string_of, trim,
    trim_chars, trim_start, vec_views, views,
};

verus! {

/// An error of the operating system, carried through unread.
#[verifier::external_type_specification]
#[verifier::external_body]
pub struct ExIoError(io::Error);

/// When a file was last modified: seconds and nanoseconds since the Unix
/// epoch. Two records of one file are of the same age exactly when both
/// numbers agree.
#[derive(Clone, Copy, Debug, PartialEq, Eq, Structural)]
pub struct ModifiedTime {
    pub secs: i64,
    pub nanos: u32,
}

/// Why a desktop entry could not be had from its file.
#[derive(Debug)]
pub enum DesktopEntryError {
    /// The file could not be opened or read.
    IoError(io::Error),
    /// The file was read and a required key is missing; the text says which.
    ParseError(String),
}

/// The text by which an error of the operating system describes itself:
/// what `Display` of `std::io::Error` writes. Nothing is claimed of the text.
#[verifier::external_body]
pub(crate) fn io_error_text(err: &io::Error) -> String {
    format!("{}", err)
}

impl From<io::Error> for DesktopEntryError {
    fn from(error: io::Error) -> (r: Self) {
        Self::IoError(error)
    }
}

impl vstd::std_specs::convert::FromSpecImpl<io::Error> for DesktopEntryError {
    open spec fn obeys_from_spec() -> bool {
        true
    }

    open spec fn from_spec(error: io::Error) -> Self {
        DesktopEntryError::IoError(error)
    }
}

impl DesktopEntryError {
    /// The error in words: for a parse error the text that it carries.
    pub fn message(&self) -> (text: String)
        ensures
            self matches DesktopEntryError::ParseError(msg) ==> text@ == msg@,
    {
        match self {
            DesktopEntryError::IoError(err) => io_error_text(err),
            DesktopEntryError::ParseError(msg) => msg.clone(),
        }
    }
}

/// The three ways in which the keys of a file can be incomplete.
pub enum ParseFailure {
    MissingType,
    MissingName,
    MissingExecForApplication,
}

impl ParseFailure {
    /// The text that a `DesktopEntryError::ParseError` carries for this failure.
    pub open spec fn message(self) -> Seq<char> {
        match self {
            ParseFailure::MissingType => "missing Type key"@,
            ParseFailure::MissingName => "missing Name key"@,
            ParseFailure::MissingExecForApplication => "missing Exec key"@,
        }
    }
}

/// One application as its desktop entry file describes it.
#[derive(Debug)]
pub struct DesktopEntry {
    pub Name: String,
    pub Exec: Option<String>,
    pub TryExec: Option<String>,
    pub Path: Option<String>,
    pub Type: String,
    pub NoDisplay: bool,
    pub Hidden: bool,
    pub StartupNotify: bool,
    pub Terminal: bool,
    /// The path of the desktop entry file.
    pub location: String,
    /// The age of the desktop entry file when it was parsed.
    pub mtime: ModifiedTime,
}

/// What a `DesktopEntry` holds, with every text as a sequence of characters.
pub struct EntryView {
    pub Name: Seq<char>,
    pub Exec: Option<Seq<char>>,
    pub TryExec: Option<Seq<char>>,
    pub Path: Option<Seq<char>>,
    pub Type: Seq<char>,
    pub NoDisplay: bool,
    pub Hidden: bool,
    pub StartupNotify: bool,
    pub Terminal: bool,
    pub location: Seq<char>,
    pub mtime: ModifiedTime,
}

/// The characters of an optional string.
pub open spec fn opt_view(o: Option<String>) -> Option<Seq<char>> {
    match o {
        Some(s) => Some(s@),
        None => None,
    }
}

impl View for DesktopEntry {
    type V = EntryView;

    open spec fn view(&self) -> EntryView {
        EntryView {
            Name: self.Name@,
            Exec: opt_view(self.Exec),
            TryExec: opt_view(self.TryExec),
            Path: opt_view(self.Path),
            Type: self.Type@,
            NoDisplay: self.NoDisplay,
            Hidden: self.Hidden,
            StartupNotify: self.StartupNotify,
            Terminal: self.Terminal,
            location: self.location@,
            mtime: self.mtime,
        }
    }
}

impl EntryView {
    /// An entry of type `Application` has a command to run.
    pub open spec fn wf(self) -> bool {
        self.Type == "Application"@ ==> self.Exec is Some
    }
}

/// Whether `c` may stand in a key: an ASCII letter, an ASCII digit or `-`.
pub open spec fn is_key_char(c: char) -> bool {
    ||| 'A' <= c <= 'Z'
    ||| 'a' <= c <= 'z'
    ||| '0' <= c <= '9'
    ||| c == '-'
}

/// Tests whether a character may stand in a key.
pub fn char_is_key_char(c: char) -> (b: bool)
    ensures
        b == is_key_char(c),
{
    ('A' <= c && c <= 'Z') || ('a' <= c && c <= 'z') || ('0' <= c && c <= '9') || c == '-'
}

/// The number of key characters at the front of `s`.
pub open spec fn key_len(s: Seq<char>) -> nat
    decreases s.len(),
{
    if s.len() > 0 && is_key_char(s[0]) {
        1 + key_len(s.skip(1))
    } else {
        0
    }
}

/// `key_len(s)` is the one index `n` such that everything before it is a key
/// character and the character at it, if any, is not.
pub proof fn lemma_key_len(s: Seq<char>, n: int)
    requires
        0 <= n <= s.len(),
        forall|j: int| 0 <= j < n ==> is_key_char(#[trigger] s[j]),
        n < s.len() ==> !is_key_char(s[n]),
    ensures
        key_len(s) == n,
    decreases s.len(),
{
    if n > 0 {
        assert(is_key_char(s[0]));
        let t = s.skip(1);
        assert forall|j: int| 0 <= j < n - 1 implies is_key_char(#[trigger] t[j]) by {
            assert(t[j] == s[j + 1]);
        }
        lemma_key_len(t, n - 1);
    }
}

/// The length of the locale suffix at the front of `s`: `[`, one or more
/// characters other than `]`, and `]`. Zero where `s` does not start with one.
pub open spec fn suffix_len(s: Seq<char>) -> nat {
    if s.len() > 0 && s[0] == '[' {
        let n = find(s.skip(1), ']');
        if 1 <= n < s.len() - 1 {
            (n + 2) as nat
        } else {
            0
        }
    } else {
        0
    }
}

/// The key and the value of a line `key = value`, where the key is one or
/// more key characters with an optional locale suffix, white space may stand
/// on both sides of `=`, and the value is the rest of the line as it is.
/// `None` for a line of any other shape.
pub open spec fn key_value(line: Seq<char>) -> Option<(Seq<char>, Seq<char>)> {
    let k = key_len(line) as int;
    let full = k + suffix_len(line.skip(k));
    let rest = trim_start(line.skip(full));
    if k >= 1 && rest.len() > 0 && rest[0] == '=' {
        Some((line.take(full), trim_start(rest.skip(1))))
    } else {
        None
    }
}

/// The index of the first character at or after `from` that is not white
/// space, or the length of `v`.
fn skip_whitespace(v: &[char], from: usize) -> (to: usize)
    requires
        from <= v.len(),
    ensures
        from <= to <= v.len(),
        to - from == leading_whitespace(v@.skip(from as int)),
{
    let mut i: usize = from;
    while i < v.len() && char_is_whitespace(v[i])
        invariant
            from <= i <= v.len(),
            forall|j: int| from <= j < i ==> is_whitespace(#[trigger] v@[j]),
        decreases v.len() - i,
    {
        i += 1;
    }
    proof {
        let t = v@.skip(from as int);
        assert forall|j: int| 0 <= j < i - from implies is_whitespace(#[trigger] t[j]) by {
            assert(t[j] == v@[j + from]);
        }
        lemma_leading_whitespace(t, i - from);
    }
    i
}

/// Splits a line into its key and its value.
pub fn match_key_value(line: &[char]) -> (r: Option<(Vec<char>, Vec<char>)>)
    ensures
        match key_value(line@) {
            Some((key, value)) => r matches Some((k, v)) && k@ == key && v@ == value,
            None => r is None,
        },
{
    let mut k: usize = 0;
    while k < line.len() && char_is_key_char(line[k])
        invariant
            k <= line.len(),
            forall|j: int| 0 <= j < k ==> is_key_char(#[trigger] line@[j]),
        decreases line.len() - k,
    {
        k += 1;
    }
    proof {
        lemma_key_len(line@, k as int);
    }
    if k == 0 {
        return None;
    }
    let mut full: usize = k;
    if k < line.len() && line[k] == '[' {
        let mut j: usize = k + 1;
        while j < line.len() && line[j] != ']'
            invariant
                k < j <= line.len(),
                forall|i: int| k < i < j ==> #[trigger] line@[i] != ']',
            decreases line.len() - j,
        {
            j += 1;
        }
        proof {
            let t = line@.skip(k as int).skip(1);
            assert forall|i: int| 0 <= i < j - k - 1 implies #[trigger] t[i] != ']' by {
                assert(t[i] == line@[i + k + 1]);
            }
            if j < line.len() {
                assert(t[j - k - 1] == line@[j as int]);
            }
            lemma_find(t, ']', j - k - 1);
        }
        if j < line.len() && j > k + 1 {
            full = j + 1;
        }
    }
    assert(full == k + suffix_len(line@.skip(k as int)));
    let eq: usize = skip_whitespace(line, full);
    if eq >= line.len() || line[eq] != '=' {
        proof {
            let rest = trim_start(line@.skip(full as int));
            assert(rest =~= line@.skip(eq as int));
        }
        return None;
    }
    let start: usize = skip_whitespace(line, eq + 1);
    let key = copy_range(line, 0, full);
    let value = copy_range(line, start, line.len());
    proof {
        let rest = trim_start(line@.skip(full as int));
        assert(rest =~= line@.skip(eq as int));
        assert(rest.skip(1) =~= line@.skip(eq + 1));
        assert(trim_start(rest.skip(1)) =~= line@.skip(start as int));
        assert(line@.take(full as int) =~= key@);
        assert(line@.skip(start as int) =~= value@);
    }
    Some((key, value))
}

/// The locale of a key of the shape `Name[locale]`, where the locale is one
/// or more characters other than `]`. `None` for every other key.
pub open spec fn name_locale(key: Seq<char>) -> Option<Seq<char>> {
    if key.len() > 6 && key.take(5) == "Name["@ && find(key.skip(5), ']') == key.len() - 6 {
        Some(key.subrange(5, key.len() - 1))
    } else {
        None
    }
}

/// The locale that a key of the shape `Name[locale]` names.
pub fn match_name_locale(key: &[char]) -> (r: Option<Vec<char>>)
    ensures
        match name_locale(key@) {
            Some(locale) => r matches Some(l) && l@ == locale,
            None => r is None,
        },
{
    if key.len() <= 6 {
        return None;
    }
    let head = copy_range(key, 0, 5);
    let tail = copy_range(key, 5, key.len());
    proof {
        assert(key@.take(5) =~= head@);
        assert(key@.skip(5) =~= tail@);
    }
    if chars_are(head.as_slice(), "Name[") && find_char(tail.as_slice(), ']') == key.len() - 6 {
        Some(copy_range(key, 5, key.len() - 1))
    } else {
        None
    }
}

/// What has been read of a file so far: whether the reader stands in the
/// section `[Desktop Entry]`, the value last given to each key, and the best
/// localized name with the rank of its locale.
pub struct Scan {
    pub in_section: bool,
    pub Name: Option<Seq<char>>,
    pub Exec: Option<Seq<char>>,
    pub TryExec: Option<Seq<char>>,
    pub Path: Option<Seq<char>>,
    pub Type: Option<Seq<char>>,
    pub NoDisplay: bool,
    pub Hidden: bool,
    pub StartupNotify: bool,
    pub Terminal: bool,
    pub localized: Option<(Seq<char>, int)>,
}

impl Scan {
    /// Before the first line: outside every section, no key set,
    /// `StartupNotify` true and the other flags false.
    pub open spec fn start() -> Scan {
        Scan {
            in_section: false,
            Name: None,
            Exec: None,
            TryExec: None,
            Path: None,
            Type: None,
            NoDisplay: false,
            Hidden: false,
            StartupNotify: true,
            Terminal: false,
            localized: None,
        }
    }

    /// The state after the key `key` was given the value `value`. A name for
    /// a locale of `locales` is kept where no name was kept before or its
    /// locale stands earlier in `locales` than that of the name kept. One of
    /// the nine known keys takes the value, a flag being true for the value
    /// `true` alone. Any other key changes nothing.
    pub open spec fn with_key(
        self,
        key: Seq<char>,
        value: Seq<char>,
        locales: Seq<Seq<char>>,
    ) -> Scan {
        match name_locale(key) {
            Some(locale) => {
                let rank = find(locales, locale);
                let better = match self.localized {
                    Some((_, kept)) => rank < kept,
                    None => true,
                };
                if rank < locales.len() && better {
                    Scan { localized: Some((value, rank)), ..self }
                } else {
                    self
                }
            },
            None => {
                if key == "Name"@ {
                    Scan { Name: Some(value), ..self }
                } else if key == "Exec"@ {
                    Scan { Exec: Some(value), ..self }
                } else if key == "TryExec"@ {
                    Scan { TryExec: Some(value), ..self }
                } else if key == "Path"@ {
                    Scan { Path: Some(value), ..self }
                } else if key == "Type"@ {
                    Scan { Type: Some(value), ..self }
                } else if key == "NoDisplay"@ {
                    Scan { NoDisplay: value == "true"@, ..self }
                } else if key == "Hidden"@ {
                    Scan { Hidden: value == "true"@, ..self }
                } else if key == "StartupNotify"@ {
                    Scan { StartupNotify: value == "true"@, ..self }
                } else if key == "Terminal"@ {
                    Scan { Terminal: value == "true"@, ..self }
                } else {
                    self
                }
            },
        }
    }

    /// The state after one more line. The line is trimmed first. An empty
    /// line changes nothing. A line that starts with `[` opens a section,
    /// which is the one that is read exactly when the line is
    /// `[Desktop Entry]`. Outside that section, and for a line that starts
    /// with `#` or is not of the shape `key = value`, nothing changes.
    pub open spec fn with_line(self, raw: Seq<char>, locales: Seq<Seq<char>>) -> Scan {
        let line = trim(raw);
        if line.len() == 0 {
            self
        } else if line[0] == '[' {
            Scan { in_section: line == "[Desktop Entry]"@, ..self }
        } else if !self.in_section || line[0] == '#' {
            self
        } else {
            match key_value(line) {
                Some((key, value)) => self.with_key(key, value, locales),
                None => self,
            }
        }
    }

    /// The state after all of `lines`, read from the first to the last.
    pub open spec fn with_lines(self, lines: Seq<Seq<char>>, locales: Seq<Seq<char>>) -> Scan
        decreases lines.len(),
    {
        if lines.len() == 0 {
            self
        } else {
            self.with_lines(lines.drop_last(), locales).with_line(lines.last(), locales)
        }
    }

    /// The name of the entry: the localized name where one was kept, else
    /// the value of `Name`.
    pub open spec fn name(self) -> Option<Seq<char>> {
        match self.localized {
            Some((value, _)) => Some(value),
            None => self.Name,
        }
    }

    /// The entry that the keys make for the file at `location`, or what is
    /// missing: `Type` first, then a name, then `Exec` where the type is
    /// `Application`.
    pub open spec fn outcome(self, location: Seq<char>, mtime: ModifiedTime) -> Result<
        EntryView,
        ParseFailure,
    > {
        if self.Type is None {
            Err(ParseFailure::MissingType)
        } else if self.name() is None {
            Err(ParseFailure::MissingName)
        } else if self.Exec is None && self.Type->0 == "Application"@ {
            Err(ParseFailure::MissingExecForApplication)
        } else {
            Ok(
                EntryView {
                    Name: self.name()->0,
                    Exec: self.Exec,
                    TryExec: self.TryExec,
                    Path: self.Path,
                    Type: self.Type->0,
                    NoDisplay: self.NoDisplay,
                    Hidden: self.Hidden,
                    StartupNotify: self.StartupNotify,
                    Terminal: self.Terminal,
                    location: location,
                    mtime: mtime,
                },
            )
        }
    }
}

/// What parsing the text of a desktop entry file gives: the text is cut into
/// lines at every line feed, the lines are read in order, and the keys that
/// were read make the entry.
pub open spec fn parsed(
    contents: Seq<char>,
    location: Seq<char>,
    mtime: ModifiedTime,
    locales: Seq<Seq<char>>,
) -> Result<EntryView, ParseFailure> {
    Scan::start().with_lines(split(contents, '\n'), locales).outcome(location, mtime)
}

/// The characters of an optional character vector.
pub open spec fn opt_chars(o: Option<Vec<char>>) -> Option<Seq<char>> {
    match o {
        Some(v) => Some(v@),
        None => None,
    }
}

/// The keys read so far, as the parser holds them.
pub struct Keys {
    in_section: bool,
    Name: Option<Vec<char>>,
    Exec: Option<Vec<char>>,
    TryExec: Option<Vec<char>>,
    Path: Option<Vec<char>>,
    Type: Option<Vec<char>>,
    NoDisplay: bool,
    Hidden: bool,
    StartupNotify: bool,
    Terminal: bool,
    localized: Option<(Vec<char>, usize)>,
}

impl View for Keys {
    type V = Scan;

    closed spec fn view(&self) -> Scan {
        Scan {
            in_section: self.in_section,
            Name: opt_chars(self.Name),
            Exec: opt_chars(self.Exec),
            TryExec: opt_chars(self.TryExec),
            Path: opt_chars(self.Path),
            Type: opt_chars(self.Type),
            NoDisplay: self.NoDisplay,
            Hidden: self.Hidden,
            StartupNotify: self.StartupNotify,
            Terminal: self.Terminal,
            localized: match self.localized {
                Some((value, rank)) => Some((value@, rank as int)),
                None => None,
            },
        }
    }
}

/// The index of the first string of `keys` that reads `x`, or the length of
/// `keys`.
pub fn position(keys: &[String], x: &[char]) -> (n: usize)
    ensures
        n == find(views(keys@), x@),
        n <= keys.len(),
{
    let mut i: usize = 0;
    while i < keys.len() && !chars_are(x, keys[i].as_str())
        invariant
            i <= keys.len(),
            forall|j: int| 0 <= j < i ==> #[trigger] views(keys@)[j] != x@,
        decreases keys.len() - i,
    {
        i += 1;
    }
    proof {
        lemma_find(views(keys@), x@, i as int);
    }
    i
}

/// Turns an optional character vector into an optional string.
fn opt_string_of(o: &Option<Vec<char>>) -> (r: Option<String>)
    ensures
        opt_view(r) == opt_chars(*o),
{
    match o {
        Some(v) => Some(string_of(v.as_slice())),
        None => None,
    }
}

impl Keys {
    /// No line read yet.
    pub fn new() -> (keys: Keys)
        ensures
            keys@ == Scan::start(),
    {
        Keys {
            in_section: false,
            Name: None,
            Exec: None,
            TryExec: None,
            Path: None,
            Type: None,
            NoDisplay: false,
            Hidden: false,
            StartupNotify: true,
            Terminal: false,
            localized: None,
        }
    }

    /// Gives `key` the value `value`.
    pub fn set(&mut self, key: Vec<char>, value: Vec<char>, locale_keys: &[String])
        ensures
            final(self)@ == old(self)@.with_key(key@, value@, views(locale_keys@)),
    {
        if let Some(locale) = match_name_locale(key.as_slice()) {
            let rank = position(locale_keys, locale.as_slice());
            if rank < locale_keys.len() {
                let better = match &self.localized {
                    Some((_, kept)) => rank < *kept,
                    None => true,
                };
                if better {
                    self.localized = Some((value, rank));
                }
            }
            return ;
        }
        let k = key.as_slice();
        if chars_are(k, "Name") {
            self.Name = Some(value);
        } else if chars_are(k, "Exec") {
            self.Exec = Some(value);
        } else if chars_are(k, "TryExec") {
            self.TryExec = Some(value);
        } else if chars_are(k, "Path") {
            self.Path = Some(value);
        } else if chars_are(k, "Type") {
            self.Type = Some(value);
        } else if chars_are(k, "NoDisplay") {
            self.NoDisplay = chars_are(value.as_slice(), "true");
        } else if chars_are(k, "Hidden") {
            self.Hidden = chars_are(value.as_slice(), "true");
        } else if chars_are(k, "StartupNotify") {
            self.StartupNotify = chars_are(value.as_slice(), "true");
        } else if chars_are(k, "Terminal") {
            self.Terminal = chars_are(value.as_slice(), "true");
        }
    }

    /// Reads one line.
    pub fn read_line(&mut self, raw: &[char], locale_keys: &[String])
        ensures
            final(self)@ == old(self)@.with_line(raw@, views(locale_keys@)),
    {
        let line = trim_chars(raw);
        if line.len() == 0 {
            return ;
        }
        let first_char = line[0];
        if first_char == '[' {
            self.in_section = chars_are(line.as_slice(), "[Desktop Entry]");
            return ;
        }
        if !self.in_section {
            return ;
        }
        if first_char == '#' {
            return ;
        }
        match match_key_value(line.as_slice()) {
            Some((key, value)) => self.set(key, value, locale_keys),
            None => {},
        }
    }

    /// Makes the entry of the file at `filepath` from the keys, or says
    /// which required key is missing.
    pub fn finish(self, filepath: &str, mtime: ModifiedTime) -> (r: Result<
        DesktopEntry,
        DesktopEntryError,
    >)
        ensures
            match self@.outcome(filepath@, mtime) {
                Ok(entry) => r matches Ok(e) && e@ == entry,
                Err(failure) => r matches Err(DesktopEntryError::ParseError(msg)) && msg@
                    == failure.message(),
            },
    {
        let name = match &self.localized {
            Some((value, _)) => Some(string_of(value.as_slice())),
            None => opt_string_of(&self.Name),
        };
        let entry_type = opt_string_of(&self.Type);
        let exec = opt_string_of(&self.Exec);
        match entry_type {
            None => Err(DesktopEntryError::ParseError("missing Type key".to_owned())),
            Some(entry_type) => match name {
                None => Err(DesktopEntryError::ParseError("missing Name key".to_owned())),
                Some(name) => {
                    if exec.is_none() && chars_are(self.Type.as_ref().unwrap().as_slice(), "Application") {
                        Err(DesktopEntryError::ParseError("missing Exec key".to_owned()))
                    } else {
                        Ok(
                            DesktopEntry {
                                Name: name,
                                Exec: exec,
                                TryExec: opt_string_of(&self.TryExec),
                                Path: opt_string_of(&self.Path),
                                Type: entry_type,
                                NoDisplay: self.NoDisplay,
                                Hidden: self.Hidden,
                                StartupNotify: self.StartupNotify,
                                Terminal: self.Terminal,
                                location: filepath.to_owned(),
                                mtime,
                            },
                        )
                    }
                },
            },
        }
    }
}

impl DesktopEntry {
    /// Parses the text `contents` of the desktop entry file at `filepath`,
    /// last modified at `mtime`. Of the names `Name[locale]`, the one whose
    /// locale stands first in `locale_keys` is taken, before the plain
    /// `Name`. The result is `Ok` unless a required key is missing, and an
    /// entry that is returned has a command where its type is `Application`.
    pub fn parse(filepath: &str, contents: &str, mtime: ModifiedTime, locale_keys: &[String]) -> (r:
        Result<DesktopEntry, DesktopEntryError>)
        ensures
            match parsed(contents@, filepath@, mtime, views(locale_keys@)) {
                Ok(entry) => r matches Ok(e) && e@ == entry,
                Err(failure) => r matches Err(DesktopEntryError::ParseError(msg)) && msg@
                    == failure.message(),
            },
            r matches Ok(e) ==> e@.wf(),
    {
        let chars = chars_of(contents);
        let lines = split_chars(chars.as_slice(), '\n');
        let mut keys = Keys::new();
        let mut i: usize = 0;
        while i < lines.len()
            invariant
                i <= lines.len(),
                keys@ == Scan::start().with_lines(
                    vec_views(lines@).take(i as int),
                    views(locale_keys@),
                ),
            decreases lines.len() - i,
        {
            proof {
                let all = vec_views(lines@);
                assert(all.take(i + 1).drop_last() =~= all.take(i as int));
                assert(all.take(i + 1).last() == lines@[i as int]@);
            }
            keys.read_line(lines[i].as_slice(), locale_keys);
            i += 1;
        }
        proof {
            assert(vec_views(lines@).take(i as int) =~= vec_views(lines@));
        }
        keys.finish(filepath, mtime)
    }
}

} // verus!
