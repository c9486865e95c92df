use std::io::{Cursor, Write};

use asseteer::zip_directory::{list_archive, scan_archive_bytes};
use asseteer::zip_listing::ZipSource;

fn zip_with(entries: &[(&str, &[u8])], deflate: bool) -> Vec<u8> {
    let mut out = Vec::new();
    {
        let mut zip = zip::ZipWriter::new(Cursor::new(&mut out));
        let method = if deflate { zip::CompressionMethod::Deflated } else { zip::CompressionMethod::Stored };
        let options = zip::write::SimpleFileOptions::default().compression_method(method);
        for (name, data) in entries {
            if name.ends_with('/') {
                zip.add_directory(name.trim_end_matches('/'), options).unwrap();
            } else {
                zip.start_file(*name, options).unwrap();
                zip.write_all(data).unwrap();
            }
        }
        zip.finish().unwrap();
    }
    out
}

#[test]
fn directory_in_index_order() {
    let bytes = zip_with(&[("Sounds/", b""), ("Sounds/coin.wav", b"RIFFcoin"), ("inner.zip", b"PK")], true);
    let entries = list_archive(bytes).unwrap();
    let names: Vec<&str> = entries.iter().map(|e| e.name.as_str()).collect();
    assert_eq!(names, vec!["Sounds/", "Sounds/coin.wav", "inner.zip"]);
    assert!(entries[0].is_dir);
    assert!(!entries[1].is_dir);
    assert_eq!(entries[1].size, 8);
    assert_eq!(entries[1].method, 8);
}

#[test]
fn stored_entries_report_method_zero() {
    let entries = list_archive(zip_with(&[("a.png", b"x")], false)).unwrap();
    assert_eq!(entries[0].method, 0);
}

#[test]
fn garbage_is_not_an_archive() {
    assert!(list_archive(b"not a zip at all".to_vec()).is_err());
    let src = ZipSource {
        folder_id: 1,
        rel_path: String::new(),
        zip_filename: "p.zip".into(),
        zip_mtime: 0,
        cache_path: "n.zip".into(),
        prefix: "n.zip/".into(),
    };
    assert!(scan_archive_bytes(b"nope".to_vec(), &src, &vec![], false).is_err());
}

#[test]
fn nested_archive_scan() {
    let bytes = zip_with(&[("fx/", b""), ("fx/hit.MP3", b"ID3"), ("deeper.zip", b"PK"), ("notes.txt", b"t")], false);
    let src = ZipSource {
        folder_id: 2,
        rel_path: "Packs".into(),
        zip_filename: "Big.zip".into(),
        zip_mtime: 9,
        cache_path: "n.zip".into(),
        prefix: "n.zip/".into(),
    };
    let listing = scan_archive_bytes(bytes, &src, &vec![], false).unwrap();
    assert_eq!(listing.assets.len(), 1);
    assert_eq!(listing.assets[0].zip_entry.as_deref(), Some("n.zip/fx/hit.MP3"));
    assert_eq!(listing.assets[0].format, "mp3");
    assert_eq!(listing.assets[0].zip_compression.as_deref(), Some("store"));
    assert_eq!(listing.nested.len(), 1);
    assert_eq!(listing.nested[0].cache_path, "n.zip/deeper.zip");
    assert_eq!(listing.nested[0].prefix, "n.zip/deeper.zip/");
}
