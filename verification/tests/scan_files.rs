use asseteer::models::AssetType;
use asseteer::scan_files::{classify_file, compute_rel_path, normalize_folder_path, path_parts_of, FileFinding};

#[test]
fn relative_folders() {
    assert_eq!(compute_rel_path("/music", "/music/a/b/x.wav", false), "a/b");
    assert_eq!(compute_rel_path("/music/", "/music/x.wav", false), "");
    assert_eq!(compute_rel_path("/music", "/other/x.wav", false), "");
    assert_eq!(compute_rel_path("/r", "/r//a/./b/x.png", false), "a/b");
    assert_eq!(compute_rel_path("./r", "./r/a/x.png", false), "a");
    assert_eq!(compute_rel_path("/r", "/r/we\\ird/x.wav", false), "we/ird");
}

#[test]
fn windows_relative_folders() {
    assert_eq!(compute_rel_path("C:\\Samples", "C:\\Samples\\Drums\\Kick\\k.wav", true), "Drums/Kick");
    assert_eq!(compute_rel_path("C:/Samples", "C:\\Samples\\k.wav", true), "");
}

#[test]
fn parts_of_paths() {
    assert_eq!(path_parts_of("/a//b/./c/", false), vec!["", "a", "b", "c"]);
    assert_eq!(path_parts_of("a\\b", true), vec!["a", "b"]);
    assert_eq!(path_parts_of("a\\b", false), vec!["a\\b"]);
    assert_eq!(path_parts_of("", false), Vec::<String>::new());
}

#[test]
fn media_files_become_assets() {
    let none: Vec<String> = Vec::new();
    match classify_file("/r", "/r/Art/Hero.PNG", 3, 4096, 1_700_000_000, &none, false) {
        FileFinding::Asset(a) => {
            assert_eq!(a.filename, "Hero.PNG");
            assert_eq!(a.folder_id, 3);
            assert_eq!(a.rel_path, "Art");
            assert!(a.zip_file.is_none() && a.zip_entry.is_none() && a.zip_compression.is_none());
            assert_eq!(a.searchable_path, "Art");
            assert_eq!(a.format, "png");
            assert!(matches!(a.asset_type, AssetType::Image));
            assert_eq!(a.file_size, 4096);
            assert_eq!(a.fs_modified_at, 1_700_000_000);
        }
        _ => panic!("expected an asset"),
    }
}

#[test]
fn archives_and_other_files() {
    let none: Vec<String> = Vec::new();
    match classify_file("/r", "/r/Packs/Retro.ZIP", 3, 10, 5, &none, false) {
        FileFinding::Archive { rel_path, zip_filename } => {
            assert_eq!(rel_path, "Packs");
            assert_eq!(zip_filename, "Retro.ZIP");
        }
        _ => panic!("expected an archive"),
    }
    assert!(matches!(classify_file("/r", "/r/.hidden.png", 3, 1, 1, &none, false), FileFinding::Skip));
    assert!(matches!(classify_file("/r", "/r/._x.wav", 3, 1, 1, &none, false), FileFinding::Skip));
    assert!(matches!(classify_file("/r", "/r/notes.txt", 3, 1, 1, &none, false), FileFinding::Skip));
    assert!(matches!(classify_file("/r", "/r/noext", 3, 1, 1, &none, false), FileFinding::Skip));
}

#[test]
fn folder_paths_are_stored_with_forward_slashes() {
    assert_eq!(normalize_folder_path("C:\\Samples\\Drums\\"), "C:/Samples/Drums/");
    assert_eq!(normalize_folder_path("/home/u/Sounds"), "/home/u/Sounds");
    assert_eq!(normalize_folder_path("\\\\nas\\share/mixed"), "//nas/share/mixed");
    assert_eq!(normalize_folder_path(""), "");
}
