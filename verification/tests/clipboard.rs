use asseteer::clipboard::{hdrop_bytes, DROPFILES_SIZE, FWIDE_OFFSET};

fn expected(paths: &[&str]) -> Vec<u8> {
    let mut v = vec![0u8; 20];
    v[0] = 20;
    v[16] = 1;
    for p in paths {
        for unit in p.replace('/', "\\").encode_utf16().chain(std::iter::once(0)) {
            v.extend_from_slice(&unit.to_le_bytes());
        }
    }
    v.extend_from_slice(&0u16.to_le_bytes());
    v
}

#[test]
fn header_layout() {
    assert_eq!(DROPFILES_SIZE, 20);
    assert_eq!(FWIDE_OFFSET, 16);
    let empty = hdrop_bytes(&vec![]);
    assert_eq!(empty.len(), 22);
    assert_eq!(&empty[0..4], &20u32.to_le_bytes());
    assert_eq!(&empty[16..20], &1i32.to_le_bytes());
}

#[test]
fn paths_are_utf16_with_backslashes() {
    let paths = vec!["C:/Samples/kick.wav".to_string(), "D:\\x\\snare.wav".to_string()];
    let block = hdrop_bytes(&paths);
    assert_eq!(block, expected(&["C:/Samples/kick.wav", "D:\\x\\snare.wav"]));
    assert_eq!(&block[20..24], &[b'C', 0, b':', 0]);
    assert_eq!(&block[24..26], &[b'\\', 0]);
}

#[test]
fn characters_beyond_the_basic_plane_use_surrogate_pairs() {
    let paths = vec!["\u{1F600}\u{e9}.wav".to_string()];
    let block = hdrop_bytes(&paths);
    assert_eq!(&block[20..24], &[0x3D, 0xD8, 0x00, 0xDE]);
    assert_eq!(block, expected(&["\u{1F600}\u{e9}.wav"]));
}
