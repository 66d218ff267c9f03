use lucy::dir_cache::{
    cached_listing, invalidate_dir_cache, new_dir_cache, store_listing, trim_dir_cache, DirCacheEntry,
    MAX_DIR_CACHE_ENTRIES,
};
use lucy::file_ops::DirEntryInfo;
use radix_trie::TrieCommon;

fn entry(name: &str) -> DirEntryInfo {
    DirEntryInfo { name: name.to_string(), is_dir: false, size: 1, modified: "2025-01-01 00:00:00".to_string() }
}

fn names(v: &[DirEntryInfo]) -> Vec<String> {
    v.iter().map(|e| e.name.clone()).collect()
}

#[test]
fn stored_listing_is_served_for_a_minute() {
    let mut c = new_dir_cache();
    store_listing(&mut c, "C:\\work".to_string(), vec![entry("a.txt"), entry("b.txt")], 1_000);
    let hit = cached_listing(&c, "C:\\work", 1_000 + 59_999).unwrap();
    assert_eq!(names(&hit), vec!["a.txt", "b.txt"]);
    assert!(cached_listing(&c, "C:\\work", 1_000 + 60_000).is_none());
    assert!(cached_listing(&c, "C:\\other", 1_000).is_none());
    // A clock that went backwards still counts the listing as fresh.
    assert!(cached_listing(&c, "C:\\work", 500).is_some());
}

#[test]
fn trim_drops_expired_listings_only() {
    let mut c = new_dir_cache();
    c.insert("old".to_string(), DirCacheEntry { entries: vec![], stamp_ms: 0 });
    c.insert("edge".to_string(), DirCacheEntry { entries: vec![], stamp_ms: 40_000 });
    c.insert("new".to_string(), DirCacheEntry { entries: vec![], stamp_ms: 90_000 });
    trim_dir_cache(&mut c, 100_000);
    assert!(c.get("old").is_none());
    assert!(c.get("edge").is_some());
    assert!(c.get("new").is_some());
    assert_eq!(c.len(), 2);
}

#[test]
fn trim_drops_the_oldest_past_the_cap() {
    let mut c = new_dir_cache();
    for i in 0..(MAX_DIR_CACHE_ENTRIES + 3) {
        c.insert(format!("d{}", i), DirCacheEntry { entries: vec![], stamp_ms: 10_000 + i as u64 });
    }
    trim_dir_cache(&mut c, 10_000);
    assert_eq!(c.len(), MAX_DIR_CACHE_ENTRIES);
    assert!(c.get("d0").is_none());
    assert!(c.get("d1").is_none());
    assert!(c.get("d2").is_none());
    assert!(c.get("d3").is_some());
    assert!(c.get(&format!("d{}", MAX_DIR_CACHE_ENTRIES + 2)).is_some());
}

#[test]
fn a_full_cache_grows_by_at_most_one() {
    let mut c = new_dir_cache();
    for i in 0..MAX_DIR_CACHE_ENTRIES {
        store_listing(&mut c, format!("d{}", i), vec![], 5_000 + i as u64);
    }
    assert_eq!(c.len(), MAX_DIR_CACHE_ENTRIES);
    store_listing(&mut c, "extra".to_string(), vec![entry("x")], 6_000);
    assert_eq!(c.len(), MAX_DIR_CACHE_ENTRIES + 1);
    store_listing(&mut c, "extra2".to_string(), vec![], 6_001);
    assert_eq!(c.len(), MAX_DIR_CACHE_ENTRIES + 1);
    assert!(c.get("d0").is_none());
    assert_eq!(names(&cached_listing(&c, "extra", 6_001).unwrap()), vec!["x"]);
}

#[test]
fn a_full_cache_of_expired_listings_empties() {
    let mut c = new_dir_cache();
    for i in 0..MAX_DIR_CACHE_ENTRIES {
        store_listing(&mut c, format!("d{}", i), vec![], 0);
    }
    store_listing(&mut c, "fresh".to_string(), vec![], 120_000);
    assert_eq!(c.len(), 1);
}

#[test]
fn invalidation_drops_both_spellings() {
    let mut c = new_dir_cache();
    store_listing(&mut c, "C:\\work".to_string(), vec![], 0);
    store_listing(&mut c, "C:\\work\\".to_string(), vec![], 0);
    store_listing(&mut c, "C:\\keep".to_string(), vec![], 0);
    invalidate_dir_cache(&mut c, "C:\\work", '\\');
    assert!(cached_listing(&c, "C:\\work", 0).is_none());
    assert!(cached_listing(&c, "C:\\work\\", 0).is_none());
    assert!(cached_listing(&c, "C:\\keep", 0).is_some());
}
