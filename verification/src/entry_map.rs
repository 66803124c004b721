//! Desktop entries under text keys.
//!
//! An `EntryMap` holds desktop entries under keys, each key once, and keeps
//! them in the order in which the keys came. The cache holds its records
//! under the paths of their files, the result of a pass holds the
//! applications under the names that the chooser shows.

use vstd::prelude::*;

use crate::desktop_entry::{DesktopEntry, EntryView};
use crate::text::{chars_are, chars_of, find, lemma_find, lemma_find_is_first, occurs};

verus! {

/// Keys with their entries, in the order in which the keys came.
pub type Pairs = Seq<(Seq<char>, EntryView)>;

/// The keys of `m`, in order.
pub open spec fn keys_of(m: Pairs) -> Seq<Seq<char>> {
    Seq::new(m.len(), |i: int| m[i].0)
}

/// The entries of `m`, in order.
pub open spec fn values_of(m: Pairs) -> Seq<EntryView> {
    Seq::new(m.len(), |i: int| m[i].1)
}

/// Whether `m` holds an entry under `key`.
pub open spec fn has_key(m: Pairs, key: Seq<char>) -> bool {
    occurs(keys_of(m), key)
}

/// The place of `key` in `m`, or the length of `m` where `m` has no such key.
pub open spec fn index_of(m: Pairs, key: Seq<char>) -> int {
    find(keys_of(m), key)
}

/// The entry that `m` holds under `key`.
pub open spec fn lookup(m: Pairs, key: Seq<char>) -> Option<EntryView> {
    if has_key(m, key) {
        Some(m[index_of(m, key)].1)
    } else {
        None
    }
}

/// Whether no key stands twice in `m`.
pub open spec fn distinct_keys(m: Pairs) -> bool {
    forall|i: int, j: int| 0 <= i < j < m.len() ==> (#[trigger] m[i]).0 != (#[trigger] m[j]).0
}

/// `m` with `entry` under `key`: in the place of the entry that `m` held
/// under `key`, or behind all others where it held none.
pub open spec fn with_entry(m: Pairs, key: Seq<char>, entry: EntryView) -> Pairs {
    if has_key(m, key) {
        m.update(index_of(m, key), (key, entry))
    } else {
        m.push((key, entry))
    }
}

/// `m` without the entry under `key`.
pub open spec fn without_key(m: Pairs, key: Seq<char>) -> Pairs {
    if has_key(m, key) {
        m.remove(index_of(m, key))
    } else {
        m
    }
}

/// A key that `m` holds stands at its place, and a key that `m` does not hold
/// stands nowhere in `m`.
pub proof fn lemma_has_key(m: Pairs, key: Seq<char>)
    ensures
        0 <= index_of(m, key) <= m.len(),
        has_key(m, key) ==> m[index_of(m, key)].0 == key,
        !has_key(m, key) ==> forall|i: int| 0 <= i < m.len() ==> (#[trigger] m[i]).0 != key,
{
    let keys = keys_of(m);
    lemma_find_is_first(keys, key);
    if !has_key(m, key) {
        assert forall|i: int| 0 <= i < m.len() implies (#[trigger] m[i]).0 != key by {
            assert(keys[i] != key);
        }
    }
}

/// A key is a key of a map with one more entry exactly when it was a key
/// before or is the key of that entry.
pub proof fn lemma_has_key_push(m: Pairs, key: Seq<char>, entry: EntryView, wanted: Seq<char>)
    ensures
        has_key(m.push((key, entry)), wanted) <==> has_key(m, wanted) || wanted == key,
{
    let more = m.push((key, entry));
    lemma_find_is_first(keys_of(m), wanted);
    lemma_find_is_first(keys_of(more), wanted);
    let at = find(keys_of(m), wanted);
    let at_more = find(keys_of(more), wanted);
    if at < m.len() {
        assert(keys_of(more)[at] == keys_of(m)[at]);
    } else if wanted == key {
        assert(keys_of(more)[m.len() as int] == key);
    } else if at_more < more.len() {
        if at_more < m.len() {
            assert(keys_of(m)[at_more] == keys_of(more)[at_more]);
        }
    }
}

/// Under the key that an entry was put under stands that entry, and under
/// every other key what stood there before.
pub proof fn lemma_lookup_with_entry(m: Pairs, key: Seq<char>, entry: EntryView, wanted: Seq<char>)
    ensures
        lookup(with_entry(m, key, entry), wanted) == if wanted == key {
            Some(entry)
        } else {
            lookup(m, wanted)
        },
{
    let more = with_entry(m, key, entry);
    lemma_has_key(m, key);
    lemma_has_key(m, wanted);
    if has_key(m, key) {
        let at = index_of(m, key);
        assert(keys_of(more) =~= keys_of(m)) by {
            assert forall|i: int| 0 <= i < m.len() implies keys_of(more)[i] == keys_of(m)[i] by {
                if i == at {
                    assert(more[i].0 == key);
                } else {
                    assert(more[i] == m[i]);
                }
            }
        }
    } else {
        lemma_has_key_push(m, key, entry, wanted);
        lemma_find_is_first(keys_of(more), wanted);
        let at_more = find(keys_of(more), wanted);
        if wanted == key {
            if at_more < m.len() {
                assert(keys_of(more)[at_more] == m[at_more].0);
            }
        } else if has_key(m, wanted) {
            let at = index_of(m, wanted);
            assert forall|j: int| 0 <= j < at implies #[trigger] keys_of(more)[j] != wanted by {
                lemma_find_is_first(keys_of(m), wanted);
                assert(keys_of(more)[j] == keys_of(m)[j]);
            }
            assert(keys_of(more)[at] == keys_of(m)[at]);
            lemma_find(keys_of(more), wanted, at);
        }
    }
}

/// Putting an entry under a key and taking a key away both leave every key
/// standing once.
pub proof fn lemma_distinct_keys_kept(m: Pairs, key: Seq<char>, entry: EntryView)
    requires
        distinct_keys(m),
    ensures
        distinct_keys(with_entry(m, key, entry)),
        distinct_keys(without_key(m, key)),
{
    lemma_has_key(m, key);
    let added = with_entry(m, key, entry);
    assert forall|i: int, j: int| 0 <= i < j < added.len() implies (#[trigger] added[i]).0 != (
    #[trigger] added[j]).0 by {
        if has_key(m, key) {
            assert(m[i].0 != m[j].0);
        } else if j < m.len() {
            assert(m[i].0 != m[j].0);
        } else {
            assert(m[i].0 != key);
        }
    }
    let removed = without_key(m, key);
    if has_key(m, key) {
        let at = index_of(m, key);
        assert forall|i: int, j: int| 0 <= i < j < removed.len() implies (#[trigger] removed[i]).0
            != (#[trigger] removed[j]).0 by {
            let a = if i < at {
                i
            } else {
                i + 1
            };
            let b = if j < at {
                j
            } else {
                j + 1
            };
            assert(removed[i] == m[a]);
            assert(removed[j] == m[b]);
            assert(m[a].0 != m[b].0);
        }
    }
}

/// Desktop entries under text keys, each key once, in the order in which the
/// keys came.
pub struct EntryMap {
    items: Vec<(String, DesktopEntry)>,
}

impl View for EntryMap {
    type V = Pairs;

    closed spec fn view(&self) -> Pairs {
        Seq::new(self.items@.len(), |i: int| (self.items@[i].0@, self.items@[i].1@))
    }
}

impl EntryMap {
    #[verifier::type_invariant]
    spec fn keys_stand_once(self) -> bool {
        distinct_keys(self@)
    }

    /// A map without entries.
    pub fn new() -> (map: EntryMap)
        ensures
            map@ == Pairs::empty(),
    {
        let map = EntryMap { items: Vec::new() };
        assert(map@ =~= Pairs::empty());
        map
    }

    /// The number of entries. No key stands twice among them.
    pub fn len(&self) -> (n: usize)
        ensures
            n == self@.len(),
            distinct_keys(self@),
    {
        proof {
            use_type_invariant(self);
        }
        self.items.len()
    }

    /// The place of the entry under `key`, or the number of entries where
    /// there is none.
    fn position(&self, key: &String) -> (n: usize)
        ensures
            n == index_of(self@, key@),
            n <= self@.len(),
            self@.len() == self.items@.len(),
    {
        let mut i: usize = 0;
        while i < self.items.len() && !(self.items[i].0 == *key)
            invariant
                i <= self.items.len(),
                forall|j: int| 0 <= j < i ==> #[trigger] keys_of(self@)[j] != key@,
            decreases self.items.len() - i,
        {
            i += 1;
        }
        proof {
            lemma_find(keys_of(self@), key@, i as int);
        }
        i
    }

    /// Whether there is an entry under `key`.
    pub fn contains_key(&self, key: &str) -> (b: bool)
        ensures
            b == has_key(self@, key@),
    {
        let key = key.to_owned();
        self.position(&key) < self.items.len()
    }

    /// The entry under `key`.
    pub fn get(&self, key: &str) -> (r: Option<&DesktopEntry>)
        ensures
            match lookup(self@, key@) {
                Some(entry) => r matches Some(e) && e@ == entry,
                None => r is None,
            },
    {
        let key = key.to_owned();
        let i = self.position(&key);
        if i < self.items.len() {
            Some(&self.items[i].1)
        } else {
            None
        }
    }

    /// The key at place `i`.
    pub fn key_at(&self, i: usize) -> (key: &String)
        requires
            i < self@.len(),
        ensures
            key@ == self@[i as int].0,
    {
        &self.items[i].0
    }

    /// The entry at place `i`.
    pub fn entry_at(&self, i: usize) -> (entry: &DesktopEntry)
        requires
            i < self@.len(),
        ensures
            entry@ == self@[i as int].1,
    {
        &self.items[i].1
    }

    /// Takes the items out of the map, which is left without entries.
    fn take_items(&mut self) -> (items: Vec<(String, DesktopEntry)>)
        ensures
            final(self)@ == Pairs::empty(),
            old(self)@ == Seq::new(items@.len(), |i: int| (items@[i].0@, items@[i].1@)),
            distinct_keys(old(self)@),
    {
        proof {
            use_type_invariant(&*self);
        }
        let mut taken = EntryMap::new();
        core::mem::swap(self, &mut taken);
        let EntryMap { items } = taken;
        items
    }

    /// Puts `entry` under `key`, in the place of the entry that was there.
    pub fn insert(&mut self, key: String, entry: DesktopEntry)
        ensures
            final(self)@ == with_entry(old(self)@, key@, entry@),
    {
        let i = self.position(&key);
        let mut items = self.take_items();
        let ghost before = old(self)@;
        proof {
            lemma_distinct_keys_kept(before, key@, entry@);
        }
        if i < items.len() {
            items.set(i, (key, entry));
        } else {
            items.push((key, entry));
        }
        let ghost after = Seq::new(items@.len(), |i: int| (items@[i].0@, items@[i].1@));
        assert(after =~= with_entry(before, key@, entry@));
        *self = EntryMap { items };
    }

    /// Takes the entry under `key` out of the map.
    pub fn remove(&mut self, key: &str) -> (r: Option<DesktopEntry>)
        ensures
            final(self)@ == without_key(old(self)@, key@),
            match lookup(old(self)@, key@) {
                Some(entry) => r matches Some(e) && e@ == entry,
                None => r is None,
            },
    {
        let owned = key.to_owned();
        let i = self.position(&owned);
        let mut items = self.take_items();
        let ghost before = old(self)@;
        proof {
            lemma_distinct_keys_kept(before, key@, arbitrary());
        }
        let r = if i < items.len() {
            let (_, entry) = items.remove(i);
            Some(entry)
        } else {
            None
        };
        let ghost after = Seq::new(items@.len(), |i: int| (items@[i].0@, items@[i].1@));
        assert(after =~= without_key(before, key@));
        *self = EntryMap { items };
        r
    }

    /// Keeps the entries that the chooser shows and drops the others.
    pub fn retain_visible(&mut self)
        ensures
            final(self)@ == visible_of(old(self)@),
    {
        let mut items = self.take_items();
        let ghost before = old(self)@;
        let mut kept: Vec<(String, DesktopEntry)> = Vec::new();
        let mut rest: Vec<(String, DesktopEntry)> = Vec::new();
        // The items are taken from the back, so they are turned round first.
        let ghost all = items@;
        while items.len() > 0
            invariant
                items@.len() + rest@.len() == all.len(),
                forall|i: int| 0 <= i < items@.len() ==> items@[i] == all[i],
                forall|i: int| 0 <= i < rest@.len() ==> rest@[i] == all[all.len() - 1 - i],
            decreases items.len(),
        {
            let item = items.pop().unwrap();
            rest.push(item);
        }
        while rest.len() > 0
            invariant
                rest@.len() <= all.len(),
                before == Seq::new(all.len(), |i: int| (all[i].0@, all[i].1@)),
                forall|i: int| 0 <= i < rest@.len() ==> rest@[i] == all[all.len() - 1 - i],
                Seq::new(kept@.len(), |i: int| (kept@[i].0@, kept@[i].1@)) == visible_of(
                    before.take(all.len() - rest@.len()),
                ),
            decreases rest.len(),
        {
            let ghost done = all.len() - rest@.len();
            let ghost kept_before = Seq::new(kept@.len(), |i: int| (kept@[i].0@, kept@[i].1@));
            let item = rest.pop().unwrap();
            proof {
                assert(item == all[done]);
                assert(before.take(done + 1).drop_last() =~= before.take(done));
                assert(before.take(done + 1).last() == (item.0@, item.1@));
            }
            if chars_are(chars_of(item.1.Type.as_str()).as_slice(), "Application")
                && !item.1.Hidden && !item.1.NoDisplay {
                kept.push(item);
                assert(Seq::new(kept@.len(), |i: int| (kept@[i].0@, kept@[i].1@))
                    =~= kept_before.push((item.0@, item.1@)));
            }
        }
        proof {
            assert(before.take(all.len() as int) =~= before);
            lemma_visible_distinct(before);
        }
        *self = EntryMap { items: kept };
    }
}

/// Whether the chooser shows an entry: an application that is neither hidden
/// nor kept from display.
pub open spec fn visible(entry: EntryView) -> bool {
    entry.Type == "Application"@ && !entry.Hidden && !entry.NoDisplay
}

/// The entries of `m` that the chooser shows, in order.
pub open spec fn visible_of(m: Pairs) -> Pairs
    decreases m.len(),
{
    if m.len() == 0 {
        m
    } else if visible(m.last().1) {
        visible_of(m.drop_last()).push(m.last())
    } else {
        visible_of(m.drop_last())
    }
}

/// Every entry that is shown is an entry of the map, shown, under its key.
pub proof fn lemma_visible_of(m: Pairs)
    ensures
        forall|i: int|
            0 <= i < visible_of(m).len() ==> visible((#[trigger] visible_of(m)[i]).1) && exists|j: int|
                0 <= j < m.len() && m[j] == visible_of(m)[i],
    decreases m.len(),
{
    if m.len() > 0 {
        let rest = m.drop_last();
        lemma_visible_of(rest);
        let shown = visible_of(m);
        assert forall|i: int| 0 <= i < shown.len() implies visible((#[trigger] shown[i]).1)
            && exists|j: int| 0 <= j < m.len() && m[j] == shown[i] by {
            if i < visible_of(rest).len() {
                assert(shown[i] == visible_of(rest)[i]);
                let j = choose|j: int| 0 <= j < rest.len() && rest[j] == visible_of(rest)[i];
                assert(m[j] == shown[i]);
            } else {
                assert(m[m.len() - 1] == shown[i]);
            }
        }
    }
}

/// Among the entries that are shown no key stands twice, where none stands
/// twice in the map.
pub proof fn lemma_visible_distinct(m: Pairs)
    requires
        distinct_keys(m),
    ensures
        distinct_keys(visible_of(m)),
    decreases m.len(),
{
    if m.len() > 0 {
        let rest = m.drop_last();
        assert(distinct_keys(rest)) by {
            assert forall|i: int, j: int| 0 <= i < j < rest.len() implies (#[trigger] rest[i]).0 != (
            #[trigger] rest[j]).0 by {
                assert(m[i].0 != m[j].0);
            }
        }
        lemma_visible_distinct(rest);
        lemma_visible_of(rest);
        let shown = visible_of(m);
        let shown_rest = visible_of(rest);
        assert forall|i: int, j: int| 0 <= i < j < shown.len() implies (#[trigger] shown[i]).0 != (
        #[trigger] shown[j]).0 by {
            if j < shown_rest.len() {
                assert(shown_rest[i].0 != shown_rest[j].0);
            } else {
                let k = choose|k: int| 0 <= k < rest.len() && rest[k] == shown_rest[i];
                assert(m[k].0 != m[m.len() - 1].0);
            }
        }
    }
}

} // verus!
