use std::io::{Cursor, Write};
use std::sync::Arc;

use asseteer::archive::read_nested_entry;
use asseteer::models::Asset;
use asseteer::zip_cache::{
    budget_bytes, cached_bytes, clear, compose_cache_key, compute_budget_bytes, entry_count, evict_unpinned,
    is_nested_zip_asset, load_entry_from_shared_zip_bytes, nested_zip_group_key, split_deepest_nested_zip_path,
    split_first_nested_zip_segment, CacheEntry, CacheEntryGuard, CacheLookup, EntryState, ZipCache,
    MAX_BUDGET_BYTES, MIN_BUDGET_BYTES,
};

fn make_nested_zip_asset(folder_path: &str, zip_file: &str, zip_entry: &str, filename: &str, format: &str) -> Asset {
    Asset {
        id: 1,
        filename: filename.into(),
        folder_id: 1,
        rel_path: "".into(),
        zip_file: Some(zip_file.into()),
        zip_entry: Some(zip_entry.into()),
        zip_compression: None,
        asset_type: "audio".into(),
        format: format.into(),
        file_size: 0,
        fs_modified_at: None,
        created_at: 0,
        modified_at: 0,
        folder_path: folder_path.into(),
    }
}

fn ready(size: usize, users: usize, last_access: u64) -> CacheEntry {
    CacheEntry {
        state: EntryState::Ready { bytes: Arc::new(vec![0u8; size]), size_bytes: size },
        active_users: users,
        last_access,
    }
}

fn zip_with(entries: &[(&str, &[u8])]) -> Vec<u8> {
    let mut out = Vec::new();
    {
        let mut zip = zip::ZipWriter::new(Cursor::new(&mut out));
        let options = zip::write::SimpleFileOptions::default().compression_method(zip::CompressionMethod::Stored);
        for (name, data) in entries {
            zip.start_file(*name, options).unwrap();
            zip.write_all(data).unwrap();
        }
        zip.finish().unwrap();
    }
    out
}

#[test]
fn test_nested_zip_group_key_uses_outer_zip_and_nested_path() {
    let asset = make_nested_zip_asset("D:/Assets", "pack.zip", "inner.zip/audio/test.wav", "test.wav", "wav");
    assert_eq!(nested_zip_group_key(&asset), Some("D:/Assets/pack.zip::inner.zip".to_string()));
}

#[test]
fn test_nested_zip_group_key_uses_deepest_nested_zip() {
    let asset =
        make_nested_zip_asset("D:/Assets", "pack.zip", "level1.zip/level2.zip/audio/test.wav", "test.wav", "wav");
    assert_eq!(nested_zip_group_key(&asset), Some("D:/Assets/pack.zip::level1.zip/level2.zip".to_string()));
}

#[test]
fn test_clear_does_not_panic() {
    let mut cache = ZipCache::new(compute_budget_bytes(0));
    clear(&mut cache);
    assert_eq!(entry_count(&cache), 0);
}

#[test]
fn test_lru_eviction_on_budget() {
    let mut cache = ZipCache::new(300);
    cache.insert("key_a".into(), ready(200, 0, 1));
    cache.insert("key_b".into(), ready(200, 0, 2));
    assert_eq!(cached_bytes(&cache), 400);

    // Over budget (400 > 300): evict least recently used
    cache.evict_for_budget(0);

    assert_eq!(entry_count(&cache), 1);
    assert!(cache.contains_key("key_b"));
    assert_eq!(cached_bytes(&cache), 200);
}

#[test]
fn test_pinned_entry_survives_eviction() {
    let mut cache = ZipCache::new(300);
    cache.insert("pinned".into(), ready(200, 1, 1));
    cache.insert("unpinned".into(), ready(200, 0, 2));

    // Need room for 100 more bytes: only the unpinned entry can go
    cache.evict_for_budget(100);

    assert_eq!(entry_count(&cache), 1);
    assert!(cache.contains_key("pinned"));
    assert_eq!(cached_bytes(&cache), 200);
}

#[test]
fn test_evict_unpinned_on_local_cache() {
    let mut cache = ZipCache::new(10000);
    cache.insert("idle_a".into(), ready(100, 0, 1));
    cache.insert("idle_b".into(), ready(100, 0, 2));
    cache.insert("active".into(), ready(100, 1, 3));
    assert_eq!(cached_bytes(&cache), 300);

    evict_unpinned(&mut cache);

    assert_eq!(entry_count(&cache), 1);
    assert!(cache.contains_key("active"));
    assert_eq!(cached_bytes(&cache), 100);
}

#[test]
fn test_budget_bytes_returns_reasonable_value() {
    let cache = ZipCache::new(compute_budget_bytes(16 * 1024 * 1024 * 1024));
    let budget = budget_bytes(&cache);
    assert!(budget >= MIN_BUDGET_BYTES);
    assert!(budget <= MAX_BUDGET_BYTES);
}

#[test]
fn budget_is_half_of_available_memory_within_bounds() {
    assert_eq!(compute_budget_bytes(0), MIN_BUDGET_BYTES);
    assert_eq!(compute_budget_bytes(6 * 1024 * 1024 * 1024), 3 * 1024 * 1024 * 1024);
    assert_eq!(compute_budget_bytes(64 * 1024 * 1024 * 1024), MAX_BUDGET_BYTES);
}

#[test]
fn load_then_hit_then_release() {
    let mut cache = ZipCache::new(MIN_BUDGET_BYTES);
    assert!(matches!(cache.lookup("k", 10), CacheLookup::Load));
    // A second reader waits while the first loads
    assert!(matches!(cache.lookup("k", 10), CacheLookup::Wait));
    assert_eq!(cache.in_flight_bytes(), 10);
    let shared = cache.complete_load("k", 10, vec![1, 2, 3]);
    assert_eq!(*shared, vec![1, 2, 3]);
    assert_eq!(cache.in_flight_bytes(), 0);
    assert_eq!(cached_bytes(&cache), 3);
    match cache.lookup("k", 10) {
        CacheLookup::Hit(bytes) => assert_eq!(*bytes, vec![1, 2, 3]),
        _ => panic!("expected a hit"),
    }
    cache.release("k");
    cache.release_guard(CacheEntryGuard::new("k".to_string()));
    // Nobody holds it now: it can be evicted
    evict_unpinned(&mut cache);
    assert_eq!(entry_count(&cache), 0);
    assert_eq!(cached_bytes(&cache), 0);
}

#[test]
fn failed_load_leaves_nothing_behind() {
    let mut cache = ZipCache::new(MIN_BUDGET_BYTES);
    assert!(matches!(cache.lookup("k", 0), CacheLookup::Load));
    assert_eq!(cache.in_flight_bytes(), 1073741824);
    cache.abort_load("k", 0);
    assert!(!cache.contains_key("k"));
    assert_eq!(cache.in_flight_bytes(), 0);
}

#[test]
fn full_budget_makes_new_loads_wait() {
    let mut cache = ZipCache::new(100);
    cache.insert("held".into(), ready(80, 1, 1));
    assert!(matches!(cache.lookup("other", 50), CacheLookup::Wait));
    assert!(!cache.contains_key("other"));
}

#[test]
fn cache_keys_and_nested_paths() {
    assert_eq!(compose_cache_key("D:/a.zip", "b.zip"), "D:/a.zip::b.zip");
    assert_eq!(split_first_nested_zip_segment("a.zip/b.zip/c.wav"), Some(("a.zip", "b.zip/c.wav")));
    assert_eq!(split_deepest_nested_zip_path("a.zip/b.zip/c.wav"), Some(("a.zip/b.zip", "c.wav")));
    assert_eq!(split_deepest_nested_zip_path("c.wav"), None);
    let plain = make_nested_zip_asset("D:/Assets", "pack.zip", "audio/test.wav", "test.wav", "wav");
    assert!(!is_nested_zip_asset(&plain));
    assert_eq!(nested_zip_group_key(&plain), None);
}

#[test]
fn entries_are_read_from_shared_archive_bytes() {
    let archive = zip_with(&[("audio/one.wav", b"RIFFone"), ("two.txt", b"two")]);
    let shared = Arc::new(archive);
    assert_eq!(load_entry_from_shared_zip_bytes(&shared, "audio/one.wav").unwrap(), b"RIFFone".to_vec());
    assert_eq!(load_entry_from_shared_zip_bytes(&shared, "two.txt").unwrap(), b"two".to_vec());
    assert!(load_entry_from_shared_zip_bytes(&shared, "missing.wav").is_err());
}

#[test]
fn nested_entries_are_read_through_every_archive() {
    let inner = zip_with(&[("audio/test.wav", b"RIFFdata")]);
    let middle = zip_with(&[("level2.zip", &inner)]);
    let outer = zip_with(&[("level1.zip", &middle)]);
    assert_eq!(read_nested_entry(&outer, "level1.zip/level2.zip/audio/test.wav").unwrap(), b"RIFFdata".to_vec());
    assert!(read_nested_entry(&outer, "level1.zip/nope.zip/audio/test.wav").is_err());
    assert!(read_nested_entry(&outer, "level1.zip/level2.zip/audio/none.wav").is_err());
}
