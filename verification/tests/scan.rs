use asseteer::models::AssetType;
use asseteer::scan::{compute_searchable_path, detect_asset_type_from_ext, encode_exclude_key, split_segments};

#[test]
fn searchable_path_joins_folder_archive_and_inner_directories() {
    let none: Vec<String> = Vec::new();
    assert_eq!(
        compute_searchable_path("Packs", Some("Retro Pack.zip"), Some("Sounds/retro_coin.wav"), &none),
        "Packs Retro Pack Sounds"
    );
    assert_eq!(compute_searchable_path("a/b//c/", None, None, &none), "a b c");
    assert_eq!(compute_searchable_path("", None, None, &none), "");
    assert_eq!(compute_searchable_path("", Some("x.ZIP"), Some("top.wav"), &none), "x");
}

#[test]
fn excluded_directories_are_left_out() {
    let excludes = vec![
        encode_exclude_key(None, "Packs/Vendor"),
        encode_exclude_key(Some("Retro Pack.zip"), "Sounds/Old"),
    ];
    assert_eq!(
        compute_searchable_path(
            "Packs/Vendor/Drums",
            Some("Retro Pack.zip"),
            Some("Sounds/Old/Kicks/k.wav"),
            &excludes
        ),
        "Packs Drums Retro Pack Sounds Kicks"
    );
    let archive = vec![encode_exclude_key(None, "Packs/Retro Pack.zip")];
    assert_eq!(compute_searchable_path("Packs", Some("Retro Pack.zip"), Some("a/b.wav"), &archive), "Packs a");
}

#[test]
fn exclude_keys_put_a_nul_between_archive_and_path() {
    assert_eq!(encode_exclude_key(None, "a/b"), "\0a/b");
    assert_eq!(encode_exclude_key(Some("z.zip"), "a"), "z.zip\0a");
}

#[test]
fn segments_skip_empty_parts() {
    assert_eq!(split_segments("/a//b/"), vec!["a".to_string(), "b".to_string()]);
    assert!(split_segments("").is_empty());
}

#[test]
fn asset_types_by_extension() {
    assert_eq!(detect_asset_type_from_ext("png"), Some(AssetType::Image));
    assert_eq!(detect_asset_type_from_ext("jpeg"), Some(AssetType::Image));
    assert_eq!(detect_asset_type_from_ext("flac"), Some(AssetType::Audio));
    assert_eq!(detect_asset_type_from_ext("aac"), Some(AssetType::Audio));
    assert_eq!(detect_asset_type_from_ext("PNG"), None);
    assert_eq!(detect_asset_type_from_ext("txt"), None);
}
