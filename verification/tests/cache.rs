use nix_freedesktop_icons::cache::{Cache, CacheEntry};

#[test]
fn get_after_insert_returns_what_was_stored() {
    let mut cache = Cache::default();
    assert_eq!(cache.get("Adwaita", 24, 1, "firefox"), CacheEntry::Unknown);
    cache.insert("Adwaita", 24, 1, "firefox", &Some(b"/p/firefox.png".to_vec()));
    assert_eq!(
        cache.get("Adwaita", 24, 1, "firefox"),
        CacheEntry::Found(b"/p/firefox.png".to_vec())
    );
    cache.insert("Adwaita", 24, 1, "steam", &None);
    assert_eq!(cache.get("Adwaita", 24, 1, "steam"), CacheEntry::NotFound);
    assert_eq!(
        cache.get("Adwaita", 24, 1, "firefox"),
        CacheEntry::Found(b"/p/firefox.png".to_vec())
    );
}

#[test]
fn other_keys_stay_unknown() {
    let mut cache = Cache::default();
    cache.insert("Adwaita", 24, 1, "firefox", &None);
    assert_eq!(cache.get("Adwaita", 24, 2, "firefox"), CacheEntry::Unknown);
    assert_eq!(cache.get("Adwaita", 16, 1, "firefox"), CacheEntry::Unknown);
    assert_eq!(cache.get("hicolor", 24, 1, "firefox"), CacheEntry::Unknown);
    assert_eq!(cache.get("Adwaita", 24, 1, "firefo"), CacheEntry::Unknown);
}

#[test]
fn insert_overwrites() {
    let mut cache = Cache::default();
    cache.insert("t", 1, 1, "i", &None);
    cache.insert("t", 1, 1, "i", &Some(b"/a".to_vec()));
    assert_eq!(cache.get("t", 1, 1, "i"), CacheEntry::Found(b"/a".to_vec()));
    cache.insert("t", 1, 1, "i", &None);
    assert_eq!(cache.get("t", 1, 1, "i"), CacheEntry::NotFound);
}

#[test]
fn stored_entry_survives_later_inserts_of_other_keys() {
    let mut cache = Cache::default();
    cache.insert("A", 16, 1, "x", &Some(b"/x.png".to_vec()));
    for i in 0..20u16 {
        cache.insert("A", i + 17, 1, "x", &None);
        cache.insert("B", 16, 1, "x", &Some(b"/b".to_vec()));
        let _ = cache.get("A", 16, 1, "x");
    }
    assert_eq!(cache.get("A", 16, 1, "x"), CacheEntry::Found(b"/x.png".to_vec()));
    assert_eq!(cache.get("A", 17, 1, "x"), CacheEntry::NotFound);
    assert_eq!(cache.get("A", 40, 1, "x"), CacheEntry::Unknown);
    assert_eq!(cache.get("C", 16, 1, "x"), CacheEntry::Unknown);
}

#[test]
fn non_utf8_path_is_kept() {
    let mut cache = Cache::default();
    cache.insert("A", 16, 1, "x", &Some(vec![b'/', 0xff, 0xfe]));
    assert_eq!(cache.get("A", 16, 1, "x"), CacheEntry::Found(vec![b'/', 0xff, 0xfe]));
}
