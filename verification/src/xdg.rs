//! The environment of a pass: where desktop entry files lie, where the cache
//! lies, where programs are looked for and which locale is asked for. And
//! what a choice of the chooser means.

use vstd::prelude::*;

use crate::desktop_entry::{parsed, DesktopEntry, DesktopEntryError, EntryView, ModifiedTime};
use crate::entry_map::{has_key, keys_of, lookup, EntryMap, Pairs};
use crate::exec::unescaped;
use crate::text::{
    chars_eq, chars_of, copy_range, find, find_last, find_last_char, lemma_find, occurs,
    push_str, sorted, sorted_strings, split, split_string, string_of, views,
};
use crate::utils::{join_path, joined_path};

verus! {

/// The variables of the environment with their values, in the order in
/// which they were given.
pub type Vars = Seq<(Seq<char>, Seq<char>)>;

/// The names of `vars`, in order.
pub open spec fn names_of(vars: Vars) -> Seq<Seq<char>> {
    Seq::new(vars.len(), |i: int| vars[i].0)
}

/// The value of the variable `name`: that of the first variable of that
/// name, or `None` where there is no such variable.
pub open spec fn var(vars: Vars, name: Seq<char>) -> Option<Seq<char>> {
    if occurs(names_of(vars), name) {
        Some(vars[find(names_of(vars), name)].1)
    } else {
        None
    }
}

/// The value of the variable `name`, or `default` where it is not set.
pub open spec fn var_or(vars: Vars, name: Seq<char>, default: Seq<char>) -> Seq<char> {
    match var(vars, name) {
        Some(value) => value,
        None => default,
    }
}

/// The home directory: the value of `HOME`.
pub open spec fn home(vars: Vars) -> Seq<char> {
    var_or(vars, "HOME"@, Seq::empty())
}

/// The directories below which desktop entry files lie, the first to be
/// read first: the value of `XDG_DATA_HOME`, or `.local/share` below the
/// home directory; then the parts of `XDG_DATA_DIRS` between its colons, or
/// `/usr/local/share/` and `/usr/share/`.
pub open spec fn data_dirs(vars: Vars) -> Seq<Seq<char>> {
    seq![var_or(vars, "XDG_DATA_HOME"@, home(vars) + "/.local/share"@)] + split(
        var_or(vars, "XDG_DATA_DIRS"@, "/usr/local/share/:/usr/share/"@),
        ':',
    )
}

/// The directory of the cache: the value of `XDG_CACHE_HOME`, or `.cache`
/// below the home directory.
pub open spec fn cache_dir(vars: Vars) -> Seq<char> {
    var_or(vars, "XDG_CACHE_HOME"@, joined_path(home(vars), ".cache"@))
}

/// The directories in which programs are looked for: the parts of `PATH`
/// between its colons, or none where `PATH` is not set.
pub open spec fn env_paths(vars: Vars) -> Seq<Seq<char>> {
    match var(vars, "PATH"@) {
        Some(value) => split(value, ':'),
        None => Seq::empty(),
    }
}

/// The locale of messages: the value of the first of `LC_ALL`,
/// `LC_MESSAGES` and `LANG` that is set, or `C`.
pub open spec fn lc_messages(vars: Vars) -> Seq<char> {
    var_or(vars, "LC_ALL"@, var_or(vars, "LC_MESSAGES"@, var_or(vars, "LANG"@, "C"@)))
}

/// The directory of the desktop entry files below each of `dirs`.
pub open spec fn application_dirs(dirs: Seq<Seq<char>>) -> Seq<Seq<char>> {
    Seq::new(dirs.len(), |i: int| joined_path(dirs[i], "applications"@))
}

/// Whether `path` names a desktop entry file: whether it ends in `.desktop`.
pub open spec fn desktop_file(path: Seq<char>) -> bool {
    path.len() >= ".desktop"@.len() && path.skip(path.len() - ".desktop"@.len()) == ".desktop"@
}

/// What the pairs of strings hold.
pub open spec fn pair_views(vars: Seq<(String, String)>) -> Vars {
    Seq::new(vars.len(), |i: int| (vars[i].0@, vars[i].1@))
}

/// Answers for the environment that it was made with.
pub struct XDGManager {
    vars: Vec<(String, String)>,
}

impl View for XDGManager {
    type V = Vars;

    closed spec fn view(&self) -> Vars {
        pair_views(self.vars@)
    }
}

impl XDGManager {
    #[verifier::type_invariant]
    spec fn home_is_set(self) -> bool {
        var(self@, "HOME"@) is Some
    }

    /// The names of the variables that are read.
    pub fn variables() -> (names: Vec<String>)
        ensures
            views(names@) == seq![
                "HOME"@,
                "XDG_DATA_HOME"@,
                "XDG_DATA_DIRS"@,
                "XDG_CACHE_HOME"@,
                "PATH"@,
                "LC_ALL"@,
                "LC_MESSAGES"@,
                "LANG"@,
            ],
    {
        let mut names: Vec<String> = Vec::new();
        names.push("HOME".to_owned());
        names.push("XDG_DATA_HOME".to_owned());
        names.push("XDG_DATA_DIRS".to_owned());
        names.push("XDG_CACHE_HOME".to_owned());
        names.push("PATH".to_owned());
        names.push("LC_ALL".to_owned());
        names.push("LC_MESSAGES".to_owned());
        names.push("LANG".to_owned());
        proof {
            assert(views(names@) =~= seq![
                "HOME"@,
                "XDG_DATA_HOME"@,
                "XDG_DATA_DIRS"@,
                "XDG_CACHE_HOME"@,
                "PATH"@,
                "LC_ALL"@,
                "LC_MESSAGES"@,
                "LANG"@,
            ]);
        }
        names
    }

    /// Whether the environment `vars` names a home directory, without which
    /// no manager can be made.
    pub fn has_home(vars: &Vec<(String, String)>) -> (b: bool)
        ensures
            b == var(pair_views(vars@), "HOME"@) is Some,
    {
        lookup_var(vars, "HOME").is_some()
    }

    /// A manager for the environment `vars`: the variables that are set,
    /// each with its value. `HOME` must be among them.
    pub fn new(vars: Vec<(String, String)>) -> (mgr: XDGManager)
        requires
            var(pair_views(vars@), "HOME"@) is Some,
        ensures
            mgr@ == pair_views(vars@),
    {
        XDGManager { vars }
    }

    /// The value of the variable `name`.
    pub fn get_env(&self, name: &str) -> (value: Option<&String>)
        ensures
            match var(self@, name@) {
                Some(v) => value matches Some(s) && s@ == v,
                None => value is None,
            },
            var(self@, "HOME"@) is Some,
    {
        proof {
            use_type_invariant(self);
        }
        lookup_var(&self.vars, name)
    }

    /// The directories below which desktop entry files lie, the first to be
    /// read first.
    pub fn get_data_dirs(&self) -> (dirs: Vec<String>)
        ensures
            views(dirs@) == data_dirs(self@),
    {
        let xdg_data_home = match self.get_env("XDG_DATA_HOME") {
            Some(val) => val.clone(),
            None => {
                let home = self.get_env("HOME").unwrap();
                let mut path = chars_of(home.as_str());
                push_str(&mut path, "/.local/share");
                string_of(path.as_slice())
            },
        };
        let xdg_data_dirs = match self.get_env("XDG_DATA_DIRS") {
            Some(val) => split_string(val.as_str(), ':'),
            None => split_string("/usr/local/share/:/usr/share/", ':'),
        };
        let mut dirs: Vec<String> = Vec::new();
        dirs.push(xdg_data_home);
        let ghost first = views(dirs@);
        let mut i: usize = 0;
        while i < xdg_data_dirs.len()
            invariant
                i <= xdg_data_dirs.len(),
                views(dirs@) == first + views(xdg_data_dirs@).take(i as int),
            decreases xdg_data_dirs.len() - i,
        {
            let dir = xdg_data_dirs[i].clone();
            proof {
                assert(views(dirs@.push(dir)) =~= first + views(xdg_data_dirs@).take(i + 1)) by {
                    let before = views(dirs@);
                    let after = views(dirs@.push(dir));
                    let wanted = first + views(xdg_data_dirs@).take(i + 1);
                    assert(before.len() == (first + views(xdg_data_dirs@).take(i as int)).len());
                    assert forall|j: int| 0 <= j < after.len() implies after[j] == wanted[j] by {
                        if j < before.len() {
                            assert(before[j] == (first + views(xdg_data_dirs@).take(i as int))[j]);
                        }
                    }
                }
            }
            dirs.push(dir);
            i += 1;
        }
        proof {
            assert(views(xdg_data_dirs@).take(i as int) =~= views(xdg_data_dirs@));
            assert(first =~= seq![
                var_or(self@, "XDG_DATA_HOME"@, home(self@) + "/.local/share"@),
            ]);
        }
        dirs
    }

    /// The directory of the desktop entry files below each data directory.
    pub fn get_application_dirs(&self) -> (dirs: Vec<String>)
        ensures
            views(dirs@) == application_dirs(data_dirs(self@)),
    {
        let data_dirs = self.get_data_dirs();
        let ghost wanted = application_dirs(views(data_dirs@));
        let mut dirs: Vec<String> = Vec::new();
        let mut i: usize = 0;
        while i < data_dirs.len()
            invariant
                i <= data_dirs.len(),
                wanted == application_dirs(views(data_dirs@)),
                views(dirs@) == wanted.take(i as int),
            decreases data_dirs.len() - i,
        {
            let app_dir = join_path(data_dirs[i].as_str(), "applications");
            proof {
                let before = views(dirs@);
                let after = views(dirs@.push(app_dir));
                assert(before.len() == wanted.take(i as int).len());
                assert(views(data_dirs@)[i as int] == data_dirs@[i as int]@);
                assert forall|j: int| 0 <= j < after.len() implies after[j] == wanted.take(
                    i + 1,
                )[j] by {
                    if j < i {
                        assert(before[j] == wanted.take(i as int)[j]);
                    }
                }
                assert(after =~= wanted.take(i + 1));
            }
            dirs.push(app_dir);
            i += 1;
        }
        proof {
            assert(wanted.take(i as int) =~= wanted);
        }
        dirs
    }

    /// The directory of the cache.
    pub fn get_cache_dir(&self) -> (dir: String)
        ensures
            dir@ == cache_dir(self@),
    {
        match self.get_env("XDG_CACHE_HOME") {
            Some(val) => val.clone(),
            None => join_path(self.get_env("HOME").unwrap().as_str(), ".cache"),
        }
    }

    /// The directories in which programs are looked for.
    pub fn get_env_paths(&self) -> (paths: Vec<String>)
        ensures
            views(paths@) == env_paths(self@),
    {
        match self.get_env("PATH") {
            Some(val) => split_string(val.as_str(), ':'),
            None => {
                let paths: Vec<String> = Vec::new();
                assert(views(paths@) =~= Seq::<Seq<char>>::empty());
                paths
            },
        }
    }

    /// The locale of messages.
    pub fn get_lc_messages(&self) -> (locale: String)
        ensures
            locale@ == lc_messages(self@),
    {
        if let Some(val) = self.get_env("LC_ALL") {
            return val.clone();
        }
        if let Some(val) = self.get_env("LC_MESSAGES") {
            return val.clone();
        }
        if let Some(val) = self.get_env("LANG") {
            return val.clone();
        }
        "C".to_owned()
    }

    /// Whether the file at `path` is to be read as a desktop entry file.
    pub fn is_desktop_file(path: &str) -> (b: bool)
        ensures
            b == desktop_file(path@),
    {
        let chars = chars_of(path);
        let ending = chars_of(".desktop");
        if chars.len() < ending.len() {
            return false;
        }
        let tail = copy_range(chars.as_slice(), chars.len() - ending.len(), chars.len());
        proof {
            assert(tail@ =~= path@.skip(path@.len() - ".desktop"@.len()));
        }
        chars_eq(tail.as_slice(), ending.as_slice())
    }

    /// The desktop entry of the file at `path` with the text `contents`,
    /// last modified at `mtime`: what parsing gives, with the escape
    /// sequences in the values of `Exec` and `TryExec` replaced.
    pub fn get_desktop_entry_from_file(
        path: &str,
        contents: &str,
        mtime: ModifiedTime,
        locale_keys: &[String],
    ) -> (r: Result<DesktopEntry, DesktopEntryError>)
        ensures
            match parsed(contents@, path@, mtime, views(locale_keys@)) {
                Ok(entry) => r matches Ok(app) && app@ == (EntryView {
                    Exec: match entry.Exec {
                        Some(cmd) => Some(unescaped(cmd)),
                        None => None,
                    },
                    TryExec: match entry.TryExec {
                        Some(cmd) => Some(unescaped(cmd)),
                        None => None,
                    },
                    ..entry
                }),
                Err(failure) => r matches Err(DesktopEntryError::ParseError(msg)) && msg@
                    == failure.message(),
            },
            r matches Ok(app) ==> app@.wf(),
    {
        let mut app = match DesktopEntry::parse(path, contents, mtime, locale_keys) {
            Ok(app) => app,
            Err(err) => {
                return Err(err);
            },
        };
        app.escape_chars_for_exec_keys();
        Ok(app)
    }

    /// The names of the applications of `app_map` as the chooser shows
    /// them: each once, in the order of strings.
    pub fn get_app_names(app_map: &EntryMap) -> (app_names: Vec<String>)
        ensures
            sorted(views(app_names@)),
            views(app_names@).to_multiset() == keys_of(app_map@).to_multiset(),
    {
        let n = app_map.len();
        let mut names: Vec<String> = Vec::new();
        let mut i: usize = 0;
        while i < n
            invariant
                i <= n,
                n == app_map@.len(),
                views(names@) == keys_of(app_map@).take(i as int),
            decreases n - i,
        {
            let name = app_map.key_at(i).clone();
            proof {
                let before = views(names@);
                let after = views(names@.push(name));
                let wanted = keys_of(app_map@);
                assert(before.len() == wanted.take(i as int).len());
                assert forall|j: int| 0 <= j < after.len() implies after[j] == wanted.take(
                    i + 1,
                )[j] by {
                    if j < i {
                        assert(before[j] == wanted.take(i as int)[j]);
                    }
                }
                assert(after =~= wanted.take(i + 1));
            }
            names.push(name);
            i += 1;
        }
        proof {
            assert(keys_of(app_map@).take(i as int) =~= keys_of(app_map@));
        }
        sorted_strings(names.as_slice())
    }
}

/// The value of the first variable of `vars` that is called `name`.
fn lookup_var<'a>(vars: &'a Vec<(String, String)>, name: &str) -> (value: Option<&'a String>)
    ensures
        match var(pair_views(vars@), name@) {
            Some(v) => value matches Some(s) && s@ == v,
            None => value is None,
        },
{
    let wanted = name.to_owned();
    let mut i: usize = 0;
    while i < vars.len() && !(vars[i].0 == wanted)
        invariant
            i <= vars.len(),
            wanted@ == name@,
            forall|j: int| 0 <= j < i ==> #[trigger] names_of(pair_views(vars@))[j] != name@,
        decreases vars.len() - i,
    {
        i += 1;
    }
    proof {
        lemma_find(names_of(pair_views(vars@)), name@, i as int);
    }
    if i < vars.len() {
        Some(&vars[i].1)
    } else {
        None
    }
}

/// What a choice of the chooser asks for.
pub enum Launch<'a> {
    /// An application, with the arguments to start it with.
    Entry(&'a DesktopEntry, Vec<String>),
    /// A command that no desktop entry stands for.
    Command(String),
}

/// What a `Launch` holds.
pub enum LaunchView {
    Entry(EntryView, Seq<Seq<char>>),
    Command(Seq<char>),
}

impl<'a> View for Launch<'a> {
    type V = LaunchView;

    open spec fn view(&self) -> LaunchView {
        match self {
            Launch::Entry(app, extra_args) => LaunchView::Entry(app@, views(extra_args@)),
            Launch::Command(cmd) => LaunchView::Command(cmd@),
        }
    }
}

/// What the choice `choice` asks for among the applications `m`. A name of
/// an application asks for that application. A name, a space and a text, of
/// which the text holds no space, ask for the application of that name with
/// the text as its one argument. Anything else is a command.
pub open spec fn resolved(m: Pairs, choice: Seq<char>) -> LaunchView {
    let space = find_last(choice, ' ');
    if has_key(m, choice) {
        LaunchView::Entry(lookup(m, choice)->0, Seq::empty())
    } else if space >= 0 && has_key(m, choice.take(space)) {
        LaunchView::Entry(lookup(m, choice.take(space))->0, seq![choice.skip(space + 1)])
    } else {
        LaunchView::Command(choice)
    }
}

/// Tells what the choice `choice` of the chooser asks for.
pub fn resolve_choice<'a>(app_map: &'a EntryMap, choice: &str) -> (launch: Launch<'a>)
    ensures
        launch@ == resolved(app_map@, choice@),
{
    // The user selected one of the options.
    if let Some(app) = app_map.get(choice) {
        let extra_args: Vec<String> = Vec::new();
        assert(views(extra_args@) =~= Seq::<Seq<char>>::empty());
        return Launch::Entry(app, extra_args);
    }
    // The user selected one of the options with one extra argument.
    let chars = chars_of(choice);
    if let Some(space) = find_last_char(chars.as_slice(), ' ') {
        let left = string_of(copy_range(chars.as_slice(), 0, space).as_slice());
        let right = string_of(copy_range(chars.as_slice(), space + 1, chars.len()).as_slice());
        proof {
            assert(left@ =~= choice@.take(space as int));
            assert(right@ =~= choice@.skip(space + 1));
        }
        if let Some(app) = app_map.get(left.as_str()) {
            let mut extra_args: Vec<String> = Vec::new();
            extra_args.push(right);
            assert(views(extra_args@) =~= seq![choice@.skip(space + 1)]);
            return Launch::Entry(app, extra_args);
        }
    }
    // The user typed arbitrary input.
    Launch::Command(choice.to_owned())
}

} // verus!
