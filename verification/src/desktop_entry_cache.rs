//! The cache of parsed desktop entries.
//!
//! The cache is one file that holds a version and the records of an earlier
//! pass. Its bytes are read and written elsewhere. Here the records are put
//! under the paths of their files, and a cache of another version counts as
//! no cache at all.

use vstd::prelude::*;

use crate::desktop_entry::{DesktopEntry, EntryView};
use crate::entry_map::{
    lemma_lookup_with_entry, lookup, values_of, with_entry, EntryMap, Pairs,
};
use crate::utils::{join_path, joined_path};

verus! {

/// The version of the cache that this library reads and writes.
pub const CACHE_VERSION: u32 = 1;

/// What is written to the cache file: the version and the records.
pub struct VersionedCacheForSerialize<'a> {
    pub version: u32,
    pub data: Vec<&'a DesktopEntry>,
}

/// What is read from the cache file: the version and the records.
pub struct VersionedCacheForDeserialize {
    pub version: u32,
    pub data: Vec<DesktopEntry>,
}

/// What each of the records holds.
pub open spec fn entry_views(records: Seq<DesktopEntry>) -> Seq<EntryView> {
    Seq::new(records.len(), |i: int| records[i]@)
}

/// What each of the records that are referred to holds.
pub open spec fn entry_ref_views(records: Seq<&DesktopEntry>) -> Seq<EntryView> {
    Seq::new(records.len(), |i: int| records[i]@)
}

impl View for VersionedCacheForDeserialize {
    type V = (u32, Seq<EntryView>);

    open spec fn view(&self) -> (u32, Seq<EntryView>) {
        (self.version, entry_views(self.data@))
    }
}

/// The records under the paths of their files. Of two records of one file
/// the later one stays, in the place of the earlier one.
pub open spec fn by_location(records: Seq<EntryView>) -> Pairs
    decreases records.len(),
{
    if records.len() == 0 {
        Pairs::empty()
    } else {
        with_entry(by_location(records.drop_last()), records.last().location, records.last())
    }
}

/// The records that a cache file gives: those that it holds, where it could
/// be read and is of this version, and none otherwise.
pub open spec fn cached(cache: Option<(u32, Seq<EntryView>)>) -> Pairs {
    match cache {
        Some((version, records)) => if version == CACHE_VERSION {
            by_location(records)
        } else {
            Pairs::empty()
        },
        None => Pairs::empty(),
    }
}

/// A cache of another version gives what no cache gives, whatever it holds.
pub proof fn lemma_other_version_is_no_cache(version: u32, records: Seq<EntryView>)
    requires
        version != CACHE_VERSION,
    ensures
        cached(Some((version, records))) == cached(None),
{
}

/// A record is found again under the path of its file, as it was stored,
/// unless a later record of the same file took its place.
pub proof fn lemma_record_is_cached(records: Seq<EntryView>, i: int)
    requires
        0 <= i < records.len(),
        forall|j: int| i < j < records.len() ==> (#[trigger] records[j]).location != records[i].location,
    ensures
        lookup(by_location(records), records[i].location) == Some(records[i]),
    decreases records.len(),
{
    let rest = records.drop_last();
    let last = records.last();
    lemma_lookup_with_entry(by_location(rest), last.location, last, records[i].location);
    if i < records.len() - 1 {
        assert(records[records.len() - 1].location != records[i].location);
        assert forall|j: int| i < j < rest.len() implies (#[trigger] rest[j]).location
            != rest[i].location by {
            assert(rest[j] == records[j]);
        }
        lemma_record_is_cached(rest, i);
    }
}

/// The views of an optional cache.
pub open spec fn opt_cache_view(cache: Option<VersionedCacheForDeserialize>) -> Option<
    (u32, Seq<EntryView>),
> {
    match cache {
        Some(c) => Some(c@),
        None => None,
    }
}

/// The path of the cache file below the cache directory.
pub fn cache_file_path(cache_dir: &str) -> (path: String)
    ensures
        path@ == joined_path(cache_dir@, "i3-dmenu-desktop-rs.bincode"@),
{
    join_path(cache_dir, "i3-dmenu-desktop-rs.bincode")
}

/// The cached desktop entries under the paths of their files. `cache` is
/// what the cache file held, or `None` where it could not be read or made
/// sense of.
pub fn get_cached_desktop_entries(cache: Option<VersionedCacheForDeserialize>) -> (apps: EntryMap)
    ensures
        apps@ == cached(opt_cache_view(cache)),
{
    let mut apps = EntryMap::new();
    let cache = match cache {
        Some(data) => data,
        None => {
            return apps;
        },
    };
    if cache.version != CACHE_VERSION {
        return apps;
    }
    let ghost records = entry_views(cache.data@);
    let mut data = cache.data;
    let ghost all = data@;
    let mut rest: Vec<DesktopEntry> = Vec::new();
    // The records are taken from the back, so they are turned round first.
    while data.len() > 0
        invariant
            data@.len() + rest@.len() == all.len(),
            forall|i: int| 0 <= i < data@.len() ==> data@[i] == all[i],
            forall|i: int| 0 <= i < rest@.len() ==> rest@[i] == all[all.len() - 1 - i],
        decreases data.len(),
    {
        let entry = data.pop().unwrap();
        rest.push(entry);
    }
    while rest.len() > 0
        invariant
            rest@.len() <= all.len(),
            records == entry_views(all),
            forall|i: int| 0 <= i < rest@.len() ==> rest@[i] == all[all.len() - 1 - i],
            apps@ == by_location(records.take(all.len() - rest@.len())),
        decreases rest.len(),
    {
        let ghost done = all.len() - rest@.len();
        let desktop_entry = rest.pop().unwrap();
        proof {
            assert(desktop_entry == all[done]);
            assert(records.take(done + 1).drop_last() =~= records.take(done));
            assert(records.take(done + 1).last() == desktop_entry@);
        }
        apps.insert(desktop_entry.location.clone(), desktop_entry);
    }
    proof {
        assert(records.take(all.len() as int) =~= records);
    }
    apps
}

/// What is to be written to the cache file: this version and every entry of
/// `apps`, in order.
pub fn save_desktop_entries_to_cache<'a>(apps: &'a EntryMap) -> (cache: VersionedCacheForSerialize<
    'a,
>)
    ensures
        cache.version == CACHE_VERSION,
        entry_ref_views(cache.data@) == values_of(apps@),
{
    let mut data: Vec<&'a DesktopEntry> = Vec::new();
    let n = apps.len();
    let mut i: usize = 0;
    while i < n
        invariant
            i <= n,
            n == apps@.len(),
            entry_ref_views(data@) == values_of(apps@).take(i as int),
        decreases n - i,
    {
        let entry = apps.entry_at(i);
        proof {
            assert(entry_ref_views(data@.push(entry)) =~= values_of(apps@).take(
                i + 1,
            )) by {
                let before = entry_ref_views(data@);
                let after = entry_ref_views(data@.push(entry));
                let wanted = values_of(apps@);
                assert(before.len() == wanted.take(i as int).len());
                assert forall|j: int| 0 <= j < after.len() implies after[j] == wanted.take(
                    i + 1,
                )[j] by {
                    if j < i {
                        assert(before[j] == wanted.take(i as int)[j]);
                    }
                }
            }
        }
        data.push(entry);
        i += 1;
    }
    proof {
        assert(values_of(apps@).take(i as int) =~= values_of(
            apps@,
        ));
    }
    VersionedCacheForSerialize { version: CACHE_VERSION, data }
}

} // verus!
