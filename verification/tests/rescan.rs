use asseteer::models::AssetType;
use asseteer::rescan::{compute_rescan_diff, preview_expired, AssetKey, ExistingAsset, RescanPreviews};
use asseteer::scan::DiscoveredAsset;

fn disc(rel: &str, name: &str, zip: Option<&str>, entry: Option<&str>, size: i64, mtime: i64) -> DiscoveredAsset {
    DiscoveredAsset {
        filename: name.into(),
        folder_id: 1,
        rel_path: rel.into(),
        zip_file: zip.map(|s| s.to_string()),
        zip_entry: entry.map(|s| s.to_string()),
        zip_compression: None,
        searchable_path: String::new(),
        format: "wav".into(),
        asset_type: AssetType::Audio,
        file_size: size,
        fs_modified_at: mtime,
    }
}

fn row(id: i64, rel: &str, name: &str, zip: Option<&str>, entry: Option<&str>, size: i64, mtime: Option<i64>) -> ExistingAsset {
    ExistingAsset {
        id,
        rel_path: rel.into(),
        filename: name.into(),
        zip_file: zip.map(|s| s.to_string()),
        zip_entry: entry.map(|s| s.to_string()),
        file_size: size,
        fs_modified_at: mtime,
    }
}

#[test]
fn diff_sorts_files_into_added_modified_unchanged_removed() {
    let discovered = vec![
        disc("a", "same.wav", None, None, 10, 100),
        disc("a", "bigger.wav", None, None, 20, 100),
        disc("a", "new.wav", None, None, 5, 100),
        disc("", "x.wav", Some("p.zip"), Some("d/x.wav"), 7, 50),
        disc("a", "touched.wav", None, None, 3, 200),
    ];
    let existing = vec![
        row(1, "a", "same.wav", None, None, 10, Some(100)),
        row(2, "a", "bigger.wav", None, None, 10, Some(100)),
        row(3, "a", "gone.wav", None, None, 1, Some(1)),
        row(4, "", "x.wav", Some("p.zip"), Some("d/x.wav"), 7, None),
        row(5, "a", "touched.wav", None, None, 3, Some(100)),
    ];
    let diff = compute_rescan_diff(discovered, existing);
    assert_eq!(diff.unchanged_count, 1);
    let added: Vec<&str> = diff.added.iter().map(|d| d.filename.as_str()).collect();
    assert_eq!(added, vec!["new.wav"]);
    let modified: Vec<(i64, &str)> = diff.modified.iter().map(|(id, d)| (*id, d.filename.as_str())).collect();
    // A record without a modification time always counts as modified
    assert_eq!(modified, vec![(2, "bigger.wav"), (4, "x.wav"), (5, "touched.wav")]);
    assert_eq!(diff.removed, vec![3]);
}

#[test]
fn second_file_with_a_key_counts_as_new_and_last_record_stands() {
    let discovered = vec![disc("a", "k.wav", None, None, 1, 1), disc("a", "k.wav", None, None, 1, 1)];
    let existing = vec![
        row(10, "a", "k.wav", None, None, 9, Some(9)),
        row(11, "a", "k.wav", None, None, 1, Some(1)),
    ];
    let diff = compute_rescan_diff(discovered, existing);
    // Compared with the last record (11), which matches
    assert_eq!(diff.unchanged_count, 1);
    assert_eq!(diff.added.len(), 1);
    assert!(diff.modified.is_empty());
    assert!(diff.removed.is_empty());
}

#[test]
fn empty_scan_removes_every_record() {
    let existing = vec![row(1, "", "a.wav", None, None, 1, Some(1)), row(2, "", "b.wav", None, None, 1, Some(1))];
    let diff = compute_rescan_diff(Vec::new(), existing);
    assert_eq!(diff.removed, vec![1, 2]);
    assert!(diff.added.is_empty());
}

#[test]
fn keys_use_entry_for_archives_and_file_name_otherwise() {
    let d = disc("r", "f.wav", Some("z.zip"), Some("in/f.wav"), 0, 0);
    let k = AssetKey::from_discovered(&d);
    assert_eq!((k.rel_path.as_str(), k.zip_file_key.as_str(), k.entry_key.as_str()), ("r", "z.zip", "in/f.wav"));
    let e = row(1, "r", "f.wav", None, None, 0, None);
    let k = AssetKey::from_existing(&e);
    assert_eq!((k.rel_path.as_str(), k.zip_file_key.as_str(), k.entry_key.as_str()), ("r", "", "f.wav"));
}

#[test]
fn previews_expire_after_half_an_hour() {
    assert!(!preview_expired(0));
    assert!(!preview_expired(1800));
    assert!(preview_expired(1801));
}

#[test]
fn preview_and_apply_counts() {
    let discovered = vec![disc("", "n.wav", None, None, 1, 1), disc("", "m.wav", None, None, 2, 1)];
    let existing = vec![row(1, "", "m.wav", None, None, 1, Some(1)), row(2, "", "g.wav", None, None, 1, Some(1))];
    let diff = compute_rescan_diff(discovered, existing);
    let preview = diff.preview_result("rescan-1-0".to_string());
    assert_eq!(preview.preview_id, "rescan-1-0");
    assert_eq!((preview.added_count, preview.removed_count, preview.modified_count, preview.unchanged_count), (1, 1, 1, 0));
    let applied = diff.apply_result();
    assert_eq!((applied.inserted, applied.deleted, applied.updated), (1, 1, 1));
}

#[test]
fn stored_preview_is_taken_once() {
    let mut store = RescanPreviews::new();
    let diff = compute_rescan_diff(vec![disc("", "n.wav", None, None, 1, 1)], Vec::new());
    store.store(7, diff, 1000);
    let taken = store.take(7, 1000 + 1800).expect("fresh preview");
    assert_eq!(taken.added.len(), 1);
    assert_eq!(store.take(7, 2800).err(), Some("No pending rescan preview for folder 7".to_string()));
}

#[test]
fn missing_preview_is_refused_with_folder_id() {
    let mut store = RescanPreviews::new();
    assert_eq!(store.take(-3, 0).err(), Some("No pending rescan preview for folder -3".to_string()));
}

#[test]
fn new_preview_replaces_the_folders_earlier_one() {
    let mut store = RescanPreviews::new();
    store.store(1, compute_rescan_diff(vec![disc("", "a.wav", None, None, 1, 1)], Vec::new()), 10);
    store.store(1, compute_rescan_diff(Vec::new(), vec![row(5, "", "g.wav", None, None, 1, Some(1))]), 20);
    store.store(2, compute_rescan_diff(Vec::new(), Vec::new()), 20);
    let taken = store.take(1, 20).expect("replaced preview");
    assert_eq!((taken.added.len(), taken.removed.clone()), (0, vec![5]));
    assert!(store.take(2, 20).is_ok());
}

#[test]
fn expired_preview_is_refused_and_dropped() {
    let mut store = RescanPreviews::new();
    store.store(4, compute_rescan_diff(Vec::new(), Vec::new()), 100);
    assert_eq!(
        store.take(4, 100 + 1801).err(),
        Some("Rescan preview expired (older than 30 minutes). Please preview again.".to_string())
    );
    assert_eq!(store.take(4, 100).err(), Some("No pending rescan preview for folder 4".to_string()));
}
