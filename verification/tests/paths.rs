use asseteer::models::Asset;
use asseteer::paths::{find_nested_zip_boundary, resolve_asset_fs_path, resolve_zip_path};

fn asset(filename: &str, rel_path: &str, zip_file: Option<&str>, zip_entry: Option<&str>) -> Asset {
    Asset {
        id: 1,
        filename: filename.into(),
        folder_id: 1,
        rel_path: rel_path.into(),
        zip_file: zip_file.map(|s| s.to_string()),
        zip_entry: zip_entry.map(|s| s.to_string()),
        zip_compression: None,
        asset_type: "image".into(),
        format: "png".into(),
        file_size: 0,
        fs_modified_at: None,
        created_at: 0,
        modified_at: 0,
        folder_path: "D:/Assets".into(),
    }
}

#[test]
fn test_zip_boundary_simple() {
    assert_eq!(find_nested_zip_boundary("inner.zip/folder/image.png"), Some(9));
}

#[test]
fn test_zip_boundary_no_zip() {
    assert_eq!(find_nested_zip_boundary("folder/image.png"), None);
}

#[test]
fn test_zip_boundary_zip_at_end_no_slash() {
    assert_eq!(find_nested_zip_boundary("archive.zip"), None);
}

#[test]
fn test_zip_boundary_case_insensitive() {
    assert_eq!(find_nested_zip_boundary("ARCHIVE.ZIP/image.png"), Some(11));
}

#[test]
fn test_zip_boundary_deeply_nested() {
    assert_eq!(find_nested_zip_boundary("outer.zip/inner.zip/file.png"), Some(9));
}

#[test]
fn test_resolve_asset_fs_path_with_rel_path() {
    let a = asset("grass.png", "Packs/textures", None, None);
    assert_eq!(resolve_asset_fs_path(&a), "D:/Assets/Packs/textures/grass.png");
}

#[test]
fn test_resolve_asset_fs_path_root() {
    let a = asset("grass.png", "", None, None);
    assert_eq!(resolve_asset_fs_path(&a), "D:/Assets/grass.png");
}

#[test]
fn test_resolve_zip_path() {
    let mut a = asset("forest_01.wav", "Packs", Some("sounds.zip"), Some("ambient/forest_01.wav"));
    a.asset_type = "audio".into();
    a.format = "wav".into();
    assert_eq!(resolve_zip_path(&a), "D:/Assets/Packs/sounds.zip");
}

#[test]
fn zip_boundary_ignores_zip_inside_a_name() {
    assert_eq!(find_nested_zip_boundary("my.zipper/file.png"), None);
    assert_eq!(find_nested_zip_boundary("a/b.Zip/c.png"), Some(7));
}

#[test]
fn resolve_zip_path_at_folder_root() {
    let a = asset("x.wav", "", Some("pack.zip"), Some("x.wav"));
    assert_eq!(resolve_zip_path(&a), "D:/Assets/pack.zip");
}
