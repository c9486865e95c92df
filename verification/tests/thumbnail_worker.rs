use asseteer::thumbnail_worker::{apply_msg, ThumbnailMsg, WorkerState, RATE_WINDOW_MS};

#[test]
fn latest_requests_come_first_and_cancelled_ones_are_skipped() {
    let mut state = WorkerState::new();
    apply_msg(&mut state, ThumbnailMsg::Request(vec![1, 2, 3]));
    // Already queued: not pushed twice
    apply_msg(&mut state, ThumbnailMsg::Request(vec![2, 4]));
    apply_msg(&mut state, ThumbnailMsg::Cancel(vec![4]));
    let batch = state.pop_batch(2);
    assert_eq!(batch, vec![3, 2]);
    assert!(!state.in_flight.contains(&4));
    let rest = state.pop_batch(10);
    assert_eq!(rest, vec![1]);
    assert!(state.pending.is_empty());
}

#[test]
fn requesting_again_uncancels() {
    let mut state = WorkerState::new();
    apply_msg(&mut state, ThumbnailMsg::Cancel(vec![7]));
    assert!(state.is_cancelled(7));
    apply_msg(&mut state, ThumbnailMsg::Request(vec![7]));
    assert!(!state.is_cancelled(7));
    assert_eq!(state.pop_batch(1), vec![7]);
}

#[test]
fn stats_count_recent_completions() {
    let mut state = WorkerState::new();
    state.record_success(1, 1_000);
    state.record_success(2, 9_000);
    state.record_failure(3);
    let counts = state.stats(10_000);
    assert_eq!(counts.loaded, 2);
    assert_eq!(counts.failed, 1);
    // Only the completion after 10_000 - RATE_WINDOW_MS counts as recent
    assert_eq!(10_000 - RATE_WINDOW_MS, 5_000);
    assert_eq!(counts.recent, 1);
    state.trim_timestamps(12_000);
    assert_eq!(state.recent_timestamps, vec![9_000]);
}

#[test]
fn cancelled_then_requested_id_is_queued_once() {
    let mut state = WorkerState::new();
    apply_msg(&mut state, ThumbnailMsg::Request(vec![1]));
    apply_msg(&mut state, ThumbnailMsg::Cancel(vec![1]));
    assert!(state.in_flight.contains(&1));
    apply_msg(&mut state, ThumbnailMsg::Request(vec![1]));
    assert_eq!(state.pending, vec![1]);
    assert_eq!(state.pop_batch(10), vec![1]);
    assert!(state.pending.is_empty());
}

#[test]
fn cancelled_pending_id_leaves_flight_when_dropped() {
    let mut state = WorkerState::new();
    apply_msg(&mut state, ThumbnailMsg::Request(vec![5, 6]));
    apply_msg(&mut state, ThumbnailMsg::Cancel(vec![6, 9]));
    assert!(state.in_flight.contains(&6));
    assert!(!state.in_flight.contains(&9));
    assert_eq!(state.pop_batch(10), vec![5]);
    assert!(!state.in_flight.contains(&6));
    assert!(state.in_flight.contains(&5));
}

#[test]
fn finishing_an_id_requested_again_keeps_it_in_flight() {
    let mut state = WorkerState::new();
    apply_msg(&mut state, ThumbnailMsg::Request(vec![3]));
    assert_eq!(state.pop_batch(1), vec![3]);
    apply_msg(&mut state, ThumbnailMsg::Cancel(vec![3]));
    assert!(!state.in_flight.contains(&3));
    apply_msg(&mut state, ThumbnailMsg::Request(vec![3]));
    state.record_success(3, 100);
    assert!(state.in_flight.contains(&3));
    apply_msg(&mut state, ThumbnailMsg::Request(vec![3]));
    assert_eq!(state.pending, vec![3]);
    assert_eq!(state.pop_batch(5), vec![3]);
    state.record_failure(3);
    assert!(!state.in_flight.contains(&3));
}
