use asseteer::clap_batch::{assemble_clap_outputs, split_clap_batch, unavailable_outputs, ClapSource};
use asseteer::models::ProcessingCategory;
use asseteer::tasks::ProcessingOutput;

fn failed_with(o: &ProcessingOutput, id: i64, msg: &str) -> bool {
    matches!(o, ProcessingOutput::Failure { asset_id, category: ProcessingCategory::Clap, error }
        if *asset_id == id && error == msg)
}

fn embedded(o: &ProcessingOutput, id: i64, blob: &[u8]) -> bool {
    matches!(o, ProcessingOutput::ClapSuccess { asset_id, embedding } if *asset_id == id && embedding == blob)
}

fn batch() -> Vec<ClapSource> {
    vec![
        ClapSource::InArchive,
        ClapSource::OnDisk,
        ClapSource::Unreadable("gone".to_string()),
        ClapSource::OnDisk,
        ClapSource::InArchive,
    ]
}

#[test]
fn batch_splits_into_path_and_byte_requests() {
    let (by_path, by_bytes) = split_clap_batch(&batch());
    assert_eq!(by_path, vec![1, 3]);
    assert_eq!(by_bytes, vec![0, 4]);
}

#[test]
fn replies_are_put_back_in_batch_order() {
    let ids = vec![10, 11, 12, 13, 14];
    let path_reply = Ok(vec![Ok(vec![1u8]), Err("bad audio".to_string())]);
    let bytes_reply = Ok(vec![Ok(vec![2u8]), Ok(vec![3u8])]);
    let out = assemble_clap_outputs(&ids, &batch(), Some(path_reply), Some(bytes_reply));
    assert_eq!(out.len(), 5);
    assert!(embedded(&out[0], 10, &[2]));
    assert!(embedded(&out[1], 11, &[1]));
    assert!(failed_with(&out[2], 12, "Failed to load asset bytes: gone"));
    assert!(failed_with(&out[3], 13, "bad audio"));
    assert!(embedded(&out[4], 14, &[3]));
}

#[test]
fn failed_requests_fail_each_of_their_assets() {
    let ids = vec![10, 11, 12, 13, 14];
    let out = assemble_clap_outputs(&ids, &batch(), Some(Err("timeout".to_string())), Some(Err("refused".to_string())));
    assert!(failed_with(&out[0], 10, "Batch upload failed: refused"));
    assert!(failed_with(&out[1], 11, "Batch request failed: timeout"));
    assert!(failed_with(&out[3], 13, "Batch request failed: timeout"));
    assert!(failed_with(&out[4], 14, "Batch upload failed: refused"));
}

#[test]
fn short_or_missing_replies_leave_no_result() {
    let ids = vec![10, 11, 12, 13, 14];
    let out = assemble_clap_outputs(&ids, &batch(), Some(Ok(vec![Ok(vec![9u8])])), None);
    assert!(embedded(&out[1], 11, &[9]));
    assert!(failed_with(&out[3], 13, "No result produced"));
    assert!(failed_with(&out[0], 10, "No result produced"));
}

#[test]
fn unreachable_service_fails_the_whole_batch() {
    let out = unavailable_outputs(&vec![1, 2], "port closed");
    assert_eq!(out.len(), 2);
    assert!(failed_with(&out[0], 1, "CLAP server unavailable: port closed"));
    assert!(failed_with(&out[1], 2, "CLAP server unavailable: port closed"));
}
