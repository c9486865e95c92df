use asseteer::uv_release::{
    download_url, find_uv_entry, is_uv_entry, is_uv_tar_file, platform_triple, uv_archive_kind, UvArchive,
};

#[test]
fn builds_exist_for_supported_machines() {
    assert_eq!(platform_triple("windows", "x86_64"), Some(("x86_64", "pc-windows-msvc", "zip")));
    assert_eq!(platform_triple("macos", "aarch64"), Some(("aarch64", "apple-darwin", "tar.gz")));
    assert_eq!(platform_triple("macos", "x86_64"), Some(("x86_64", "apple-darwin", "tar.gz")));
    assert_eq!(platform_triple("linux", "x86_64"), Some(("x86_64", "unknown-linux-gnu", "tar.gz")));
    assert_eq!(platform_triple("linux", "aarch64"), Some(("aarch64", "unknown-linux-gnu", "tar.gz")));
    assert_eq!(platform_triple("windows", "aarch64"), None);
    assert_eq!(platform_triple("freebsd", "x86_64"), None);
}

#[test]
fn release_urls() {
    assert_eq!(
        download_url("x86_64", "unknown-linux-gnu", "tar.gz"),
        "https://github.com/astral-sh/uv/releases/download/0.6.14/uv-x86_64-unknown-linux-gnu.tar.gz"
    );
    assert_eq!(
        download_url("x86_64", "pc-windows-msvc", "zip"),
        "https://github.com/astral-sh/uv/releases/download/0.6.14/uv-x86_64-pc-windows-msvc.zip"
    );
}

#[test]
fn archive_kinds() {
    assert!(matches!(uv_archive_kind("zip"), Ok(UvArchive::Zip)));
    assert!(matches!(uv_archive_kind("tar.gz"), Ok(UvArchive::TarGz)));
    assert_eq!(uv_archive_kind("7z").err(), Some("Unsupported archive format: 7z".to_string()));
}

#[test]
fn the_program_entry_is_not_uvx() {
    assert!(is_uv_entry("uv-x86_64-pc-windows-msvc/uv.exe", true));
    assert!(!is_uv_entry("uv-x86_64-pc-windows-msvc/uvx.exe", true));
    assert!(!is_uv_entry("uv-x86_64-pc-windows-msvc/uv.exe", false));
    assert!(is_uv_entry("dir/uv", false));
    let names: Vec<String> = vec!["uvx-dir/uv.exe".into(), "a/uvx.exe".into(), "a/uv.exe".into(), "b/uv.exe".into()];
    assert_eq!(find_uv_entry(&names, true), Some(2));
    assert_eq!(find_uv_entry(&names[..2].to_vec(), true), None);
}

#[test]
fn tar_program_file() {
    assert!(is_uv_tar_file("uv"));
    assert!(!is_uv_tar_file("uvx"));
    assert!(!is_uv_tar_file("uv.exe"));
}
