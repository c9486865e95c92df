use asseteer::drag_files::{drag_cache_entry, order_as_requested, partial_name, signed_decimal_text};

#[test]
fn assets_follow_the_requested_order() {
    assert_eq!(order_as_requested(&vec![10, 20, 30], &vec![30, 10, 20]), vec![2, 0, 1]);
    assert_eq!(order_as_requested(&vec![], &vec![1, 2]), Vec::<usize>::new());
}

#[test]
fn a_repeated_id_counts_at_its_last_place() {
    assert_eq!(order_as_requested(&vec![10, 20], &vec![10, 20, 10]), vec![1, 0]);
}

#[test]
fn unrequested_assets_come_first_in_their_order() {
    assert_eq!(order_as_requested(&vec![5, 99, 7, 98], &vec![7, 5]), vec![1, 3, 2, 0]);
}

#[test]
fn cache_entry_names() {
    assert_eq!(drag_cache_entry(42, Some(1_700_000_000)), "42_1700000000");
    assert_eq!(drag_cache_entry(7, None), "7_0");
    assert_eq!(drag_cache_entry(-3, Some(-1)), "-3_-1");
    assert_eq!(signed_decimal_text(i64::MIN), i64::MIN.to_string());
    assert_eq!(signed_decimal_text(0), "0");
    assert_eq!(partial_name("kick.wav"), "kick.wav.partial");
}
