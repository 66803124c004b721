use i3_dmenu_desktop_rs::app_map::{get_unique_name_for_desktop_entry, AppCollector};
use i3_dmenu_desktop_rs::desktop_entry::{DesktopEntry, ModifiedTime};
use i3_dmenu_desktop_rs::desktop_entry_cache::{
    cache_file_path, get_cached_desktop_entries, save_desktop_entries_to_cache,
    VersionedCacheForDeserialize, CACHE_VERSION,
};
use i3_dmenu_desktop_rs::entry_map::EntryMap;

fn time(secs: i64) -> ModifiedTime {
    ModifiedTime { secs, nanos: 500 }
}

fn app(name: &str, location: &str, secs: i64) -> DesktopEntry {
    DesktopEntry {
        Name: name.to_string(),
        Exec: Some(format!("run {}", location)),
        TryExec: None,
        Path: None,
        Type: "Application".to_string(),
        NoDisplay: false,
        Hidden: false,
        StartupNotify: true,
        Terminal: false,
        location: location.to_string(),
        mtime: time(secs),
    }
}

fn names(map: &EntryMap) -> Vec<String> {
    (0..map.len()).map(|i| map.key_at(i).clone()).collect()
}

fn locations(map: &EntryMap) -> Vec<String> {
    (0..map.len()).map(|i| map.entry_at(i).location.clone()).collect()
}

#[test]
fn entry_map_keeps_each_key_once_in_order() {
    let mut map = EntryMap::new();
    assert_eq!(map.len(), 0);
    map.insert("b".to_string(), app("B", "/1", 0));
    map.insert("a".to_string(), app("A", "/2", 0));
    map.insert("b".to_string(), app("B2", "/3", 0));
    assert_eq!(names(&map), vec!["b", "a"]);
    assert_eq!(locations(&map), vec!["/3", "/2"]);
    assert!(map.contains_key("a"));
    assert!(!map.contains_key("A"));
    assert_eq!(map.get("b").unwrap().Name, "B2");
    assert!(map.get("c").is_none());
}

#[test]
fn entry_map_remove() {
    let mut map = EntryMap::new();
    map.insert("a".to_string(), app("A", "/1", 0));
    map.insert("b".to_string(), app("B", "/2", 0));
    map.insert("c".to_string(), app("C", "/3", 0));
    assert_eq!(map.remove("b").unwrap().location, "/2");
    assert!(map.remove("b").is_none());
    assert_eq!(names(&map), vec!["a", "c"]);
}

#[test]
fn entry_map_retain_visible() {
    let mut map = EntryMap::new();
    map.insert("shown".to_string(), app("A", "/1", 0));
    let mut hidden = app("B", "/2", 0);
    hidden.Hidden = true;
    map.insert("hidden".to_string(), hidden);
    let mut no_display = app("C", "/3", 0);
    no_display.NoDisplay = true;
    map.insert("no display".to_string(), no_display);
    let mut link = app("D", "/4", 0);
    link.Type = "Link".to_string();
    map.insert("link".to_string(), link);
    map.insert("also shown".to_string(), app("E", "/5", 0));
    map.retain_visible();
    assert_eq!(names(&map), vec!["shown", "also shown"]);
    assert_eq!(locations(&map), vec!["/1", "/5"]);
}

#[test]
fn unique_name_of_a_free_name() {
    let map = EntryMap::new();
    assert_eq!(get_unique_name_for_desktop_entry(&app("Firefox", "/1", 0), &map), "Firefox");
}

#[test]
fn unique_name_counts_from_two() {
    let mut map = EntryMap::new();
    map.insert("Firefox".to_string(), app("Firefox", "/1", 0));
    assert_eq!(get_unique_name_for_desktop_entry(&app("Firefox", "/2", 0), &map), "Firefox (2)");
    map.insert("Firefox (2)".to_string(), app("Firefox", "/2", 0));
    assert_eq!(get_unique_name_for_desktop_entry(&app("Firefox", "/3", 0), &map), "Firefox (3)");
    assert_eq!(get_unique_name_for_desktop_entry(&app("Files", "/4", 0), &map), "Files");
}

#[test]
fn unique_name_takes_the_first_free_number() {
    let mut map = EntryMap::new();
    map.insert("X".to_string(), app("X", "/1", 0));
    map.insert("X (3)".to_string(), app("X", "/3", 0));
    assert_eq!(get_unique_name_for_desktop_entry(&app("X", "/2", 0), &map), "X (2)");
    map.insert("X (2)".to_string(), app("X", "/2", 0));
    assert_eq!(get_unique_name_for_desktop_entry(&app("X", "/4", 0), &map), "X (4)");
}

#[test]
fn unique_name_with_two_digits() {
    let mut map = EntryMap::new();
    map.insert("X".to_string(), app("X", "/1", 0));
    for n in 2..=11 {
        let name = get_unique_name_for_desktop_entry(&app("X", "/n", 0), &map);
        assert_eq!(name, format!("X ({})", n));
        map.insert(name, app("X", "/n", 0));
    }
    assert_eq!(get_unique_name_for_desktop_entry(&app("X", "/n", 0), &map), "X (12)");
}

#[test]
fn unique_name_of_a_name_that_looks_numbered() {
    let mut map = EntryMap::new();
    map.insert("X (2)".to_string(), app("X (2)", "/1", 0));
    assert_eq!(get_unique_name_for_desktop_entry(&app("X", "/2", 0), &map), "X");
    assert_eq!(get_unique_name_for_desktop_entry(&app("X (2)", "/3", 0), &map), "X (2) (2)");
}

#[test]
fn earlier_directory_keeps_the_plain_name() {
    let mut pass = AppCollector::new(EntryMap::new());
    pass.add_parsed(app("Firefox", "/home/u/.local/share/applications/firefox.desktop", 1));
    pass.add_parsed(app("Firefox", "/usr/share/applications/firefox.desktop", 2));
    let apps = pass.finish();
    assert_eq!(names(&apps), vec!["Firefox", "Firefox (2)"]);
    assert_eq!(
        apps.get("Firefox").unwrap().location,
        "/home/u/.local/share/applications/firefox.desktop"
    );
    assert_eq!(apps.get("Firefox (2)").unwrap().location, "/usr/share/applications/firefox.desktop");
}

#[test]
fn cached_record_of_the_same_age_is_reused() {
    let mut cached = app("Firefox", "/apps/firefox.desktop", 7);
    cached.Exec = Some("cached exec".to_string());
    cached.TryExec = Some("cached try".to_string());
    cached.Path = Some("/cached".to_string());
    cached.Terminal = true;
    let cache = get_cached_desktop_entries(Some(VersionedCacheForDeserialize {
        version: CACHE_VERSION,
        data: vec![cached],
    }));
    let mut pass = AppCollector::new(cache);
    assert!(pass.add_cached("/apps/firefox.desktop", time(7)));
    assert!(!pass.needs_save());
    let found = pass.apps().get("Firefox").unwrap();
    assert_eq!(found.Exec.as_deref(), Some("cached exec"));
    assert_eq!(found.TryExec.as_deref(), Some("cached try"));
    assert_eq!(found.Path.as_deref(), Some("/cached"));
    assert!(found.Terminal);
    assert_eq!(found.location, "/apps/firefox.desktop");
    assert_eq!(found.mtime, time(7));
}

#[test]
fn cached_record_of_another_age_is_not_reused() {
    let cache = get_cached_desktop_entries(Some(VersionedCacheForDeserialize {
        version: CACHE_VERSION,
        data: vec![app("Firefox", "/apps/firefox.desktop", 7)],
    }));
    let mut pass = AppCollector::new(cache);
    assert!(!pass.add_cached("/apps/firefox.desktop", time(8)));
    assert_eq!(pass.apps().len(), 0);
    assert!(!pass.needs_save());
    // The nanoseconds count too.
    let cache = get_cached_desktop_entries(Some(VersionedCacheForDeserialize {
        version: CACHE_VERSION,
        data: vec![app("Firefox", "/apps/firefox.desktop", 7)],
    }));
    let mut pass = AppCollector::new(cache);
    assert!(!pass.add_cached("/apps/firefox.desktop", ModifiedTime { secs: 7, nanos: 501 }));
}

#[test]
fn cached_record_is_asked_for_once() {
    let cache = get_cached_desktop_entries(Some(VersionedCacheForDeserialize {
        version: CACHE_VERSION,
        data: vec![app("Firefox", "/apps/firefox.desktop", 7)],
    }));
    let mut pass = AppCollector::new(cache);
    assert!(!pass.add_cached("/apps/other.desktop", time(7)));
    assert!(pass.add_cached("/apps/firefox.desktop", time(7)));
    assert!(!pass.add_cached("/apps/firefox.desktop", time(7)));
    assert_eq!(names(pass.apps()), vec!["Firefox"]);
}

#[test]
fn fresh_parse_asks_for_a_save() {
    let mut pass = AppCollector::new(EntryMap::new());
    assert!(!pass.needs_save());
    pass.add_parsed(app("A", "/a", 1));
    assert!(pass.needs_save());
}

#[test]
fn hidden_apps_are_cached_and_not_shown() {
    let mut pass = AppCollector::new(EntryMap::new());
    let mut hidden = app("A", "/a", 1);
    hidden.Hidden = true;
    pass.add_parsed(hidden);
    pass.add_parsed(app("A", "/b", 2));
    let mut link = app("L", "/c", 3);
    link.Type = "Link".to_string();
    pass.add_parsed(link);
    {
        let saved = save_desktop_entries_to_cache(pass.apps());
        assert_eq!(saved.version, CACHE_VERSION);
        let saved_locations: Vec<&str> = saved.data.iter().map(|e| e.location.as_str()).collect();
        assert_eq!(saved_locations, vec!["/a", "/b", "/c"]);
    }
    let apps = pass.finish();
    // The hidden application took the plain name before it was dropped.
    assert_eq!(names(&apps), vec!["A (2)"]);
    assert_eq!(apps.get("A (2)").unwrap().location, "/b");
}

#[test]
fn cache_version_is_one() {
    assert_eq!(CACHE_VERSION, 1);
}

#[test]
fn cache_of_another_version_is_no_cache() {
    let stale = get_cached_desktop_entries(Some(VersionedCacheForDeserialize {
        version: CACHE_VERSION + 1,
        data: vec![app("Firefox", "/apps/firefox.desktop", 7)],
    }));
    let missing = get_cached_desktop_entries(None);
    assert_eq!(stale.len(), 0);
    assert_eq!(missing.len(), 0);
    let mut pass = AppCollector::new(stale);
    assert!(!pass.add_cached("/apps/firefox.desktop", time(7)));
    let older = get_cached_desktop_entries(Some(VersionedCacheForDeserialize {
        version: 0,
        data: vec![app("Firefox", "/apps/firefox.desktop", 7)],
    }));
    assert_eq!(older.len(), 0);
}

#[test]
fn cache_is_keyed_by_location() {
    let cache = get_cached_desktop_entries(Some(VersionedCacheForDeserialize {
        version: CACHE_VERSION,
        data: vec![app("A", "/a", 1), app("B", "/b", 2), app("A again", "/a", 3)],
    }));
    assert_eq!(names(&cache), vec!["/a", "/b"]);
    assert_eq!(cache.get("/a").unwrap().Name, "A again");
    assert_eq!(cache.get("/b").unwrap().Name, "B");
    assert!(cache.get("A").is_none());
}

#[test]
fn cache_file_lies_in_the_cache_directory() {
    assert_eq!(cache_file_path("/home/u/.cache"), "/home/u/.cache/i3-dmenu-desktop-rs.bincode");
    assert_eq!(cache_file_path("/home/u/.cache/"), "/home/u/.cache/i3-dmenu-desktop-rs.bincode");
}
