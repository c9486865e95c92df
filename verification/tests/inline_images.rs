use asseteer::inline_images::{drag_preview_image, store_thumbnail, thumbnail_output};

#[test]
fn thumbnail_output_encodes_standard_base64() {
    let out = thumbnail_output(b"hello world~", 640, 480);
    assert_eq!(out.thumbnail, "aGVsbG8gd29ybGR+");
    assert_eq!(out.width, 640);
    assert_eq!(out.height, 480);

    let padded = thumbnail_output(&[0, 1, 2, 250], 1, 1);
    assert_eq!(padded.thumbnail, "AAEC+g==");

    let empty = thumbnail_output(&[], 0, 0);
    assert_eq!(empty.thumbnail, "");
}

#[test]
fn stored_thumbnail_is_the_one_made() {
    let data: Vec<u8> = (0..=255u8).collect();
    let out = thumbnail_output(&data, 16, 16);
    assert_eq!(store_thumbnail(Some(out.thumbnail.as_str())), Ok(Some(data)));
}

#[test]
fn missing_thumbnail_field_stores_nothing() {
    assert_eq!(store_thumbnail(None), Ok(None));
}

#[test]
fn undecodable_thumbnail_is_an_error() {
    let err = store_thumbnail(Some("not base64!")).unwrap_err();
    assert!(err.starts_with("Failed to decode thumbnail: "));
    assert!(err.len() > "Failed to decode thumbnail: ".len());
}

#[test]
fn drag_preview_decodes_png_data_url() {
    assert_eq!(drag_preview_image(Some("data:image/png;base64,AAEC+g==")), Ok(vec![0, 1, 2, 250]));
    assert_eq!(drag_preview_image(Some("data:image/png;base64,")), Ok(vec![]));
}

#[test]
fn drag_preview_absent_or_other_format_is_empty() {
    assert_eq!(drag_preview_image(None), Ok(vec![]));
    assert_eq!(drag_preview_image(Some("data:image/jpeg;base64,AAEC")), Ok(vec![]));
    assert_eq!(drag_preview_image(Some("AAEC")), Ok(vec![]));
}

#[test]
fn bad_drag_preview_is_an_error() {
    let err = drag_preview_image(Some("data:image/png;base64,@@@")).unwrap_err();
    assert!(err.starts_with("Bad drag image: "));
}
