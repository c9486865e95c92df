use std::io::{Cursor, Write};

use asseteer::archive::read_nested_entry;
use asseteer::models::AssetType;
use asseteer::zip_listing::{
    archive_warning_location, compression_method_str, enumerate_zip_entries, ZipEntryInfo, ZipSource,
};

fn entry(name: &str, size: u64, method: u16) -> ZipEntryInfo {
    ZipEntryInfo { name: name.to_string(), size, method, is_dir: name.ends_with('/') }
}

fn outer_source() -> ZipSource {
    ZipSource {
        folder_id: 7,
        rel_path: "Packs".to_string(),
        zip_filename: "Retro Pack.zip".to_string(),
        zip_mtime: 1_700_000_000,
        cache_path: String::new(),
        prefix: String::new(),
    }
}

#[test]
fn media_entries_become_assets_in_order() {
    let entries = vec![
        entry("Sounds/", 0, 0),
        entry("Sounds/retro_coin.wav", 1234, 8),
        entry("readme.txt", 10, 8),
        entry("Art/Hero.PNG", 99, 0),
        entry("Art/.hidden.png", 5, 0),
        entry("__MACOSX/Art/._Hero.PNG", 5, 0),
        entry("noext", 5, 0),
    ];
    let none: Vec<String> = Vec::new();
    let listing = enumerate_zip_entries(&entries, &outer_source(), &none, false);
    assert!(listing.nested.is_empty());
    assert_eq!(listing.assets.len(), 2);

    let coin = &listing.assets[0];
    assert_eq!(coin.filename, "retro_coin.wav");
    assert_eq!(coin.folder_id, 7);
    assert_eq!(coin.rel_path, "Packs");
    assert_eq!(coin.zip_file.as_deref(), Some("Retro Pack.zip"));
    assert_eq!(coin.zip_entry.as_deref(), Some("Sounds/retro_coin.wav"));
    assert_eq!(coin.zip_compression.as_deref(), Some("deflate"));
    assert_eq!(coin.searchable_path, "Packs Retro Pack Sounds");
    assert_eq!(coin.format, "wav");
    assert!(matches!(coin.asset_type, AssetType::Audio));
    assert_eq!(coin.file_size, 1234);
    assert_eq!(coin.fs_modified_at, 1_700_000_000);

    let hero = &listing.assets[1];
    assert_eq!(hero.filename, "Hero.PNG");
    assert_eq!(hero.format, "png");
    assert!(matches!(hero.asset_type, AssetType::Image));
    assert_eq!(hero.zip_compression.as_deref(), Some("store"));
    assert_eq!(hero.searchable_path, "Packs Retro Pack Art");
}

#[test]
fn nested_archives_are_listed_for_descent() {
    let entries = vec![entry("Inner/Drums.ZIP", 4096, 8), entry("top.ogg", 3, 12)];
    let none: Vec<String> = Vec::new();
    let listing = enumerate_zip_entries(&entries, &outer_source(), &none, false);
    assert_eq!(listing.nested.len(), 1);
    assert_eq!(listing.nested[0].cache_path, "Inner/Drums.ZIP");
    assert_eq!(listing.nested[0].size, 4096);
    assert_eq!(listing.nested[0].prefix, "Inner/Drums.ZIP/");
    assert_eq!(listing.assets.len(), 1);
    assert_eq!(listing.assets[0].zip_compression.as_deref(), Some("bzip2"));
}

#[test]
fn entries_of_a_nested_archive_carry_its_prefix() {
    let src = ZipSource {
        folder_id: 1,
        rel_path: String::new(),
        zip_filename: "outer.zip".to_string(),
        zip_mtime: 5,
        cache_path: "a/inner.zip".to_string(),
        prefix: "a/inner.zip/".to_string(),
    };
    let entries = vec![entry("deeper.zip", 10, 0), entry("x/kick.flac", 20, 93)];
    let none: Vec<String> = Vec::new();
    let listing = enumerate_zip_entries(&entries, &src, &none, false);
    assert_eq!(listing.nested[0].cache_path, "a/inner.zip/deeper.zip");
    assert_eq!(listing.nested[0].prefix, "a/inner.zip/deeper.zip/");
    assert_eq!(listing.assets[0].zip_entry.as_deref(), Some("a/inner.zip/x/kick.flac"));
    assert_eq!(listing.assets[0].zip_compression.as_deref(), Some("zstd"));
    assert_eq!(listing.assets[0].filename, "kick.flac");
}

#[test]
fn file_names_follow_path_rules() {
    let none: Vec<String> = Vec::new();
    let entries = vec![
        entry("a//b.mp3", 1, 0),
        entry("c/./d.gif", 1, 0),
        entry("e/f.jpg/.", 1, 0),
        entry("g/..", 1, 0),
        entry(".png", 1, 0),
        entry("dir\\h.bmp", 1, 0),
    ];
    let unix = enumerate_zip_entries(&entries, &outer_source(), &none, false);
    let names: Vec<&str> = unix.assets.iter().map(|a| a.filename.as_str()).collect();
    assert_eq!(names, vec!["b.mp3", "d.gif", "f.jpg", "dir\\h.bmp"]);
    let windows = enumerate_zip_entries(&entries, &outer_source(), &none, true);
    let names: Vec<&str> = windows.assets.iter().map(|a| a.filename.as_str()).collect();
    assert_eq!(names, vec!["b.mp3", "d.gif", "f.jpg", "h.bmp"]);
}

#[test]
fn compression_names() {
    assert_eq!(compression_method_str(0), "store");
    assert_eq!(compression_method_str(8), "deflate");
    assert_eq!(compression_method_str(9), "deflate64");
    assert_eq!(compression_method_str(12), "bzip2");
    assert_eq!(compression_method_str(93), "zstd");
    assert_eq!(compression_method_str(14), "lzma");
    assert_eq!(compression_method_str(99), "unknown");
}

#[test]
fn warning_locations() {
    assert_eq!(archive_warning_location("", "p.zip", None), "p.zip");
    assert_eq!(archive_warning_location("Packs", "p.zip", None), "Packs/p.zip");
    assert_eq!(archive_warning_location("", "p.zip", Some("in/n.zip")), "p.zip/in/n.zip");
    assert_eq!(archive_warning_location("Packs", "p.zip", Some("n.zip")), "Packs/p.zip/n.zip");
}

fn zip_with(entries: &[(&str, &[u8])]) -> Vec<u8> {
    let mut out = Vec::new();
    {
        let mut zip = zip::ZipWriter::new(Cursor::new(&mut out));
        let options = zip::write::SimpleFileOptions::default().compression_method(zip::CompressionMethod::Stored);
        for (name, data) in entries {
            zip.start_file(*name, options).unwrap();
            zip.write_all(data).unwrap();
        }
        zip.finish().unwrap();
    }
    out
}

#[test]
fn recorded_entries_read_back_through_nested_archives() {
    let deep = zip_with(&[("sfx/boom.ogg", b"OggSboom")]);
    let outer = zip_with(&[("Inner/Deep.ZIP", &deep), ("top.wav", b"RIFFtop")]);
    let none: Vec<String> = Vec::new();

    let outer_listing = enumerate_zip_entries(
        &vec![entry("Inner/Deep.ZIP", deep.len() as u64, 0), entry("top.wav", 7, 0)],
        &outer_source(),
        &none,
        false,
    );
    let top = &outer_listing.assets[0];
    assert_eq!(read_nested_entry(&outer, top.zip_entry.as_deref().unwrap()).unwrap(), b"RIFFtop".to_vec());

    let nested = &outer_listing.nested[0];
    let src = ZipSource {
        cache_path: nested.cache_path.clone(),
        prefix: nested.prefix.clone(),
        ..outer_source()
    };
    let inner_listing = enumerate_zip_entries(&vec![entry("sfx/boom.ogg", 8, 0)], &src, &none, false);
    let boom = &inner_listing.assets[0];
    assert_eq!(boom.zip_entry.as_deref(), Some("Inner/Deep.ZIP/sfx/boom.ogg"));
    assert_eq!(read_nested_entry(&outer, boom.zip_entry.as_deref().unwrap()).unwrap(), b"OggSboom".to_vec());
}
