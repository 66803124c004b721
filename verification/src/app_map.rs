//! One pass over the desktop entry files: from the files that are found,
//! the cache and the fresh parses, to the applications under the names that
//! the chooser shows.
//!
//! The files are found and read elsewhere. For each file the collector says
//! whether the cached record still holds, takes the record or the fresh
//! parse under a name that no other application has, and in the end leaves
//! the applications that are to be shown.

use vstd::prelude::*;
use vstd::set_lib::{lemma_int_range, lemma_len_subset, lemma_map_size, set_int_range};

use crate::desktop_entry::{DesktopEntry, EntryView, ModifiedTime};
use crate::entry_map::{
    has_key, keys_of, lemma_has_key_push, lookup, visible_of, without_key, EntryMap, Pairs,
};
use crate::text::{
    chars_of, decimal, find, lemma_decimal_injective, lemma_find_is_first, push_decimal,
    string_of,
};

verus! {

/// The `n`th name for an application called `base`: `base` itself for the
/// first, and `base (n)` from the second on.
pub open spec fn numbered(base: Seq<char>, n: nat) -> Seq<char> {
    if n <= 1 {
        base
    } else {
        base + seq![' ', '('] + decimal(n) + seq![')']
    }
}

/// Two numbers give one application two names.
pub proof fn lemma_numbered_injective(base: Seq<char>, a: nat, b: nat)
    requires
        a >= 1,
        b >= 1,
        numbered(base, a) == numbered(base, b),
    ensures
        a == b,
{
    let x = numbered(base, a);
    let y = numbered(base, b);
    if a >= 2 && b >= 2 {
        let from = base.len() + 2;
        assert(x.subrange(from as int, x.len() - 1) =~= decimal(a));
        assert(y.subrange(from as int, y.len() - 1) =~= decimal(b));
        lemma_decimal_injective(a, b);
    } else if a >= 2 {
        assert(x.len() == base.len() + 2 + decimal(a).len() + 1);
    } else if b >= 2 {
        assert(y.len() == base.len() + 2 + decimal(b).len() + 1);
    }
}

/// Whether each of the first `n - 1` names for `base` is a key of `m`.
pub open spec fn taken_below(m: Pairs, base: Seq<char>, n: nat) -> bool {
    forall|k: nat| 1 <= k < n ==> has_key(m, #[trigger] numbered(base, k))
}

/// Whether the `n`th name for `base` is the first that is no key of `m`.
pub open spec fn is_first_free(m: Pairs, base: Seq<char>, n: nat) -> bool {
    n >= 1 && !has_key(m, numbered(base, n)) && taken_below(m, base, n)
}

/// The number of the first name for `base` that is no key of `m`.
pub open spec fn first_free(m: Pairs, base: Seq<char>) -> nat {
    choose|n: nat| is_first_free(m, base, n)
}

/// The name under which an application called `base` goes into `m`: `base`
/// where that is free, else the first of `base (2)`, `base (3)` and so on
/// that is.
pub open spec fn unique_name(m: Pairs, base: Seq<char>) -> Seq<char> {
    numbered(base, first_free(m, base))
}

/// There is one first free name only.
pub proof fn lemma_first_free(m: Pairs, base: Seq<char>, n: nat)
    requires
        is_first_free(m, base, n),
    ensures
        first_free(m, base) == n,
{
    let chosen = first_free(m, base);
    assert(is_first_free(m, base, chosen));
    if chosen < n {
        assert(has_key(m, numbered(base, chosen)));
    } else if n < chosen {
        assert(has_key(m, numbered(base, n)));
    }
}

/// A map does not hold more names for one application than it holds keys.
pub proof fn lemma_taken_bound(m: Pairs, base: Seq<char>, c: nat)
    requires
        taken_below(m, base, c + 1),
    ensures
        c <= m.len(),
{
    let numbers = set_int_range(1, c as int + 1);
    let name_of = |k: int| numbered(base, k as nat);
    let names = numbers.map(name_of);
    let keys = keys_of(m);
    lemma_int_range(1, c as int + 1);
    assert(vstd::relations::injective_on(name_of, numbers)) by {
        assert forall|a: int, b: int|
            numbers.contains(a) && numbers.contains(b) && #[trigger] name_of(a) == #[trigger] name_of(
                b,
            ) implies a == b by {
            lemma_numbered_injective(base, a as nat, b as nat);
        }
    }
    lemma_map_size(numbers, names, name_of);
    vstd::seq_lib::seq_to_set_is_finite(keys);
    keys.lemma_cardinality_of_set();
    assert(names.subset_of(keys.to_set())) by {
        assert forall|name: Seq<char>| names.contains(name) implies keys.to_set().contains(
            name,
        ) by {
            let k = choose|k: int| numbers.contains(k) && name_of(k) == name;
            assert(has_key(m, numbered(base, k as nat)));
            lemma_find_is_first(keys, name);
            assert(keys[find(keys, name)] == name);
        }
    }
    lemma_len_subset(names, keys.to_set());
}

/// Every application finds a free name.
pub proof fn lemma_unique_name_is_free(m: Pairs, base: Seq<char>)
    ensures
        is_first_free(m, base, first_free(m, base)),
        !has_key(m, unique_name(m, base)),
{
    // Were every name up to the one behind the last key taken, the map
    // would hold more names than keys.
    let bound = (m.len() + 2) as nat;
    if taken_below(m, base, bound) {
        lemma_taken_bound(m, base, (m.len() + 1) as nat);
    }
    let n = lemma_least_free(m, base, bound);
    assert(is_first_free(m, base, n));
}

/// Where not every name below `bound` is taken, one of them is the first
/// free one.
proof fn lemma_least_free(m: Pairs, base: Seq<char>, bound: nat) -> (n: nat)
    requires
        !taken_below(m, base, bound),
    ensures
        is_first_free(m, base, n),
    decreases bound,
{
    let k = choose|k: nat| 1 <= k < bound && !has_key(m, #[trigger] numbered(base, k));
    if taken_below(m, base, k) {
        k
    } else {
        lemma_least_free(m, base, k)
    }
}

/// Of two applications of one name the first keeps the name and the second
/// goes under the name with ` (2)` behind it, where both names were free:
/// the application that is found first, in the directory that is read
/// first, is the one that the plain name stands for.
pub proof fn lemma_second_of_a_name(
    pass: Pass,
    first: EntryView,
    second: EntryView,
    first_fresh: bool,
    second_fresh: bool,
)
    requires
        first.Name == second.Name,
        !has_key(pass.apps_by_name, first.Name),
        !has_key(pass.apps_by_name, numbered(first.Name, 2)),
    ensures
        pass.with_app(first, first_fresh).with_app(second, second_fresh).apps_by_name
            == pass.apps_by_name.push((first.Name, first)).push(
            (first.Name + seq![' ', '(', '2', ')'], second),
        ),
{
    let name = first.Name;
    let m = pass.apps_by_name;
    assert(is_first_free(m, name, 1));
    lemma_first_free(m, name, 1);
    let one = m.push((name, first));
    assert(pass.with_app(first, first_fresh).apps_by_name == one);
    lemma_has_key_push(m, name, first, name);
    lemma_has_key_push(m, name, first, numbered(name, 2));
    assert(numbered(name, 2).len() > name.len());
    assert(is_first_free(one, name, 2)) by {
        assert forall|k: nat| 1 <= k < 2 implies has_key(one, #[trigger] numbered(name, k)) by {
            assert(numbered(name, k) == name);
        }
    }
    lemma_first_free(one, name, 2);
    assert(decimal(2) =~= seq!['2']);
    assert(numbered(name, 2) =~= name + seq![' ', '(', '2', ')']);
}

/// The `n`th name for an application called `base`.
fn numbered_name(base: &str, n: u128) -> (name: String)
    requires
        n >= 2,
    ensures
        name@ == numbered(base@, n as nat),
{
    let mut out = chars_of(base);
    out.push(' ');
    out.push('(');
    push_decimal(&mut out, n);
    out.push(')');
    proof {
        assert(out@ =~= numbered(base@, n as nat));
    }
    string_of(out.as_slice())
}

/// The name under which `app` goes into `existing_apps`: its own name where
/// no other application has it, else its name with the first number from 2 on
/// that makes a name that no other application has.
pub fn get_unique_name_for_desktop_entry(app: &DesktopEntry, existing_apps: &EntryMap) -> (name:
    String)
    ensures
        name@ == unique_name(existing_apps@, app@.Name),
        !has_key(existing_apps@, name@),
{
    let n = existing_apps.len();
    let mut name = app.Name.clone();
    let mut counter: u128 = 1;
    while existing_apps.contains_key(name.as_str())
        invariant
            n == existing_apps@.len(),
            1 <= counter <= n + 1,
            name@ == numbered(app@.Name, counter as nat),
            taken_below(existing_apps@, app@.Name, counter as nat),
        decreases n + 1 - counter,
    {
        proof {
            assert(taken_below(existing_apps@, app@.Name, (counter + 1) as nat));
            lemma_taken_bound(existing_apps@, app@.Name, counter as nat);
        }
        counter += 1;
        name = numbered_name(app.Name.as_str(), counter);
    }
    proof {
        lemma_first_free(existing_apps@, app@.Name, counter as nat);
    }
    name
}

/// Where a pass stands: the cached records that no file has asked for yet,
/// the applications found so far under their names, and whether one of them
/// was parsed afresh.
pub struct Pass {
    pub cached_apps_by_path: Pairs,
    pub apps_by_name: Pairs,
    pub at_least_one_app_not_in_cache: bool,
}

impl Pass {
    /// The pass after `entry` was taken in: it stands behind the others,
    /// under the name that is unique for it.
    pub open spec fn with_app(self, entry: EntryView, fresh: bool) -> Pass {
        Pass {
            apps_by_name: self.apps_by_name.push(
                (unique_name(self.apps_by_name, entry.Name), entry),
            ),
            at_least_one_app_not_in_cache: self.at_least_one_app_not_in_cache || fresh,
            ..self
        }
    }

    /// The cached record that holds for the file at `path`, last modified at
    /// `mtime`: the record under that path, where it is of the same age.
    pub open spec fn valid_record(self, path: Seq<char>, mtime: ModifiedTime) -> Option<EntryView> {
        match lookup(self.cached_apps_by_path, path) {
            Some(entry) => if entry.mtime == mtime {
                Some(entry)
            } else {
                None
            },
            None => None,
        }
    }

    /// The pass after the file at `path`, last modified at `mtime`, was
    /// found: the record under that path has left the cache, and where it
    /// holds for the file it was taken in as it is.
    pub open spec fn with_file(self, path: Seq<char>, mtime: ModifiedTime) -> Pass {
        let rest = Pass { cached_apps_by_path: without_key(self.cached_apps_by_path, path), ..self };
        match self.valid_record(path, mtime) {
            Some(entry) => rest.with_app(entry, false),
            None => rest,
        }
    }
}

/// A cached record of the same age as its file is taken in as it is: the
/// file is not parsed again, every field is what the cache held, and the
/// cache need not be written on that account.
pub proof fn lemma_cached_record_is_reused(
    pass: Pass,
    path: Seq<char>,
    mtime: ModifiedTime,
    entry: EntryView,
)
    requires
        lookup(pass.cached_apps_by_path, path) == Some(entry),
        entry.mtime == mtime,
    ensures
        pass.valid_record(path, mtime) == Some(entry),
        pass.with_file(path, mtime).apps_by_name == pass.apps_by_name.push(
            (unique_name(pass.apps_by_name, entry.Name), entry),
        ),
        pass.with_file(path, mtime).at_least_one_app_not_in_cache
            == pass.at_least_one_app_not_in_cache,
{
}

/// Collects the applications of one pass.
pub struct AppCollector {
    cached_apps_by_path: EntryMap,
    apps_by_name: EntryMap,
    at_least_one_app_not_in_cache: bool,
}

impl View for AppCollector {
    type V = Pass;

    closed spec fn view(&self) -> Pass {
        Pass {
            cached_apps_by_path: self.cached_apps_by_path@,
            apps_by_name: self.apps_by_name@,
            at_least_one_app_not_in_cache: self.at_least_one_app_not_in_cache,
        }
    }
}

impl AppCollector {
    /// Starts a pass with the records of the cache.
    pub fn new(cached_apps_by_path: EntryMap) -> (collector: AppCollector)
        ensures
            collector@ == (Pass {
                cached_apps_by_path: cached_apps_by_path@,
                apps_by_name: Pairs::empty(),
                at_least_one_app_not_in_cache: false,
            }),
    {
        AppCollector {
            cached_apps_by_path,
            apps_by_name: EntryMap::new(),
            at_least_one_app_not_in_cache: false,
        }
    }

    /// Takes `app` in under a name of its own.
    fn add(&mut self, app: DesktopEntry, fresh: bool)
        ensures
            final(self)@ == old(self)@.with_app(app@, fresh),
    {
        let name = get_unique_name_for_desktop_entry(&app, &self.apps_by_name);
        self.apps_by_name.insert(name, app);
        if fresh {
            self.at_least_one_app_not_in_cache = true;
        }
    }

    /// A file was found at `path`, last modified at `mtime`. Returns whether
    /// the cache holds a record of that file of the same age. Such a record
    /// is taken in as it is, and the file need not be parsed. Where `false`
    /// is returned the file is to be parsed, and nothing was taken in.
    pub fn add_cached(&mut self, path: &str, mtime: ModifiedTime) -> (hit: bool)
        ensures
            hit == old(self)@.valid_record(path@, mtime) is Some,
            final(self)@ == old(self)@.with_file(path@, mtime),
    {
        if let Some(app) = self.cached_apps_by_path.remove(path) {
            if app.mtime == mtime {
                self.add(app, false);
                return true;
            }
        }
        false
    }

    /// Takes in an application that was parsed afresh.
    pub fn add_parsed(&mut self, app: DesktopEntry)
        ensures
            final(self)@ == old(self)@.with_app(app@, true),
    {
        self.add(app, true);
    }

    /// Whether the cache is to be written: whether an application was
    /// parsed afresh.
    pub fn needs_save(&self) -> (b: bool)
        ensures
            b == self@.at_least_one_app_not_in_cache,
    {
        self.at_least_one_app_not_in_cache
    }

    /// All applications found so far, shown or not, under their names.
    pub fn apps(&self) -> (apps: &EntryMap)
        ensures
            apps@ == self@.apps_by_name,
    {
        &self.apps_by_name
    }

    /// Ends the pass: the applications that the chooser shows, under their
    /// names, in the order in which they were found.
    pub fn finish(self) -> (apps: EntryMap)
        ensures
            apps@ == visible_of(self@.apps_by_name),
    {
        let mut apps = self.apps_by_name;
        apps.retain_visible();
        apps
    }
}

} // verus!
