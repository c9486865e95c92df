use asseteer::external::{classify_path, is_network_path, PathLocation};

#[test]
fn unc_paths_are_network() {
    let none: Vec<u8> = Vec::new();
    assert!(is_network_path(r"\\nas\audio\kick.wav", &none));
    assert!(is_network_path("//nas/audio/kick.wav", &none));
    assert!(is_network_path(r"\\?\UNC\nas\audio\kick.wav", &none));
    assert!(!is_network_path(r"C:\audio\kick.wav", &none));
    assert!(!is_network_path(r"\\?\C:\audio\kick.wav", &none));
}

#[test]
fn drive_paths_follow_the_drive() {
    let remote = vec![b'Z'];
    assert_eq!(classify_path(r"z:\a.wav"), PathLocation::Drive(b'z'));
    assert!(is_network_path(r"z:\a.wav", &remote));
    assert!(is_network_path(r"\\?\Z:\a.wav", &remote));
    assert!(!is_network_path(r"C:\a.wav", &remote));
    assert_eq!(classify_path("relative/a.wav"), PathLocation::Local);
    assert_eq!(classify_path("1:/a.wav"), PathLocation::Local);
}
