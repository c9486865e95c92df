use asseteer::models::{Asset, ProcessingCategory};
use asseteer::work_queue::{
    build_batch_plan, worker_step, BatchGroupCompletion, ChannelPoll, WorkerAction, WorkerEvent, CLAP_BATCH_SIZE,
    NESTED_ZIP_BATCH_SIZE,
};
use asseteer::zip_cache::nested_zip_group_key;

fn make_asset(filename: &str, folder_id: i64, rel_path: &str, asset_type: &str, format: &str) -> Asset {
    Asset {
        id: 0,
        filename: filename.to_string(),
        folder_id,
        rel_path: rel_path.to_string(),
        zip_file: None,
        zip_entry: None,
        zip_compression: None,
        asset_type: asset_type.to_string(),
        format: format.to_string(),
        file_size: 1024,
        fs_modified_at: Some(1_000_000),
        created_at: 1_000_000,
        modified_at: 1_000_000,
        folder_path: String::new(),
    }
}

fn make_nested_batch_asset(zip_file: &str, zip_entry: &str, name: &str) -> Asset {
    let mut asset = make_asset(name, 1, "", "audio", "wav");
    asset.folder_path = "D:/Assets".to_string();
    asset.zip_file = Some(zip_file.to_string());
    asset.zip_entry = Some(zip_entry.to_string());
    asset
}

#[test]
fn test_batch_plan_separates_zip_and_nonzip() {
    let assets = vec![
        make_nested_batch_asset("pack_a.zip", "inner_a.zip/one.wav", "one.wav"),
        make_nested_batch_asset("pack_a.zip", "inner_a.zip/two.wav", "two.wav"),
        make_nested_batch_asset("pack_a.zip", "inner_a.zip/three.wav", "three.wav"),
        make_asset("plain.wav", 1, "", "audio", "wav"),
        make_nested_batch_asset("pack_b.zip", "inner_b.zip/four.wav", "four.wav"),
        make_nested_batch_asset("pack_b.zip", "inner_b.zip/five.wav", "five.wav"),
    ];

    let plan = build_batch_plan(ProcessingCategory::Audio, 7, assets, false);

    assert_eq!(plan.zip_groups.len(), 2);
    assert_eq!(plan.zip_groups[0].batches.iter().map(|b| b.assets.len()).sum::<usize>(), 3);
    assert_eq!(plan.zip_groups[1].batches.iter().map(|b| b.assets.len()).sum::<usize>(), 2);

    assert_eq!(plan.non_zip.len(), 1);
    assert_eq!(plan.non_zip[0].assets.len(), 1);

    for group in &plan.zip_groups {
        for batch in &group.batches {
            assert_eq!(batch.generation, 7);
            assert_eq!(batch.category, ProcessingCategory::Audio);
        }
    }
}

#[test]
fn test_batch_plan_groups_non_consecutive_same_key() {
    let assets = vec![
        make_nested_batch_asset("pack_a.zip", "inner_a.zip/one.wav", "one.wav"),
        make_nested_batch_asset("pack_b.zip", "inner_b.zip/two.wav", "two.wav"),
        make_nested_batch_asset("pack_a.zip", "inner_a.zip/three.wav", "three.wav"),
        make_nested_batch_asset("pack_b.zip", "inner_b.zip/four.wav", "four.wav"),
        make_nested_batch_asset("pack_a.zip", "inner_a.zip/five.wav", "five.wav"),
    ];

    let plan = build_batch_plan(ProcessingCategory::Audio, 1, assets, false);

    assert_eq!(plan.zip_groups.len(), 2);
    let total_zip_assets: usize = plan.zip_groups.iter().flat_map(|g| &g.batches).map(|b| b.assets.len()).sum();
    assert_eq!(total_zip_assets, 5);
    assert_eq!(plan.zip_groups[0].batches.iter().map(|b| b.assets.len()).sum::<usize>(), 3);
    assert_eq!(plan.zip_groups[1].batches.iter().map(|b| b.assets.len()).sum::<usize>(), 2);
    assert_eq!(plan.non_zip.len(), 0);
}

#[test]
fn test_batch_plan_splits_large_zip_groups() {
    let assets: Vec<Asset> = (0..10)
        .map(|i| make_nested_batch_asset("pack_a.zip", &format!("inner_a.zip/{}.wav", i), &format!("{}.wav", i)))
        .collect();

    let plan = build_batch_plan(ProcessingCategory::Audio, 3, assets, false);

    assert_eq!(plan.zip_groups.len(), 1);
    let batch_sizes: Vec<usize> = plan.zip_groups[0].batches.iter().map(|b| b.assets.len()).collect();
    assert_eq!(batch_sizes, vec![NESTED_ZIP_BATCH_SIZE, 2]);
}

#[test]
fn test_batch_plan_clap_respects_key_boundaries() {
    let assets = vec![
        make_nested_batch_asset("pack_a.zip", "inner_a.zip/one.wav", "one.wav"),
        make_nested_batch_asset("pack_a.zip", "inner_a.zip/two.wav", "two.wav"),
        make_nested_batch_asset("pack_b.zip", "inner_b.zip/three.wav", "three.wav"),
        make_asset("plain.wav", 1, "", "audio", "wav"),
    ];

    let plan = build_batch_plan(ProcessingCategory::Clap, 1, assets, false);

    assert_eq!(plan.zip_groups.len(), 0);

    for batch in &plan.non_zip {
        let keys: Vec<_> = batch.assets.iter().map(|a| nested_zip_group_key(a)).collect();
        let first = &keys[0];
        assert!(keys.iter().all(|k| k == first), "CLAP batch should not cross key boundaries: {:?}", keys);
    }
}

#[test]
fn test_batch_group_completion_tracking() {
    let mut completion = BatchGroupCompletion::new(3);

    assert!(!completion.batch_done());
    assert_eq!(completion.remaining, 2);
    assert!(!completion.batch_done());
    assert_eq!(completion.remaining, 1);
    // The third one is the last: the dispatcher is woken
    assert!(completion.batch_done());
    assert_eq!(completion.remaining, 0);
}

#[test]
fn clap_batches_follow_key_order_and_size() {
    // 20 assets of pack_b, 3 of pack_a, 2 plain ones, interleaved
    let mut assets = Vec::new();
    for i in 0..20 {
        assets.push(make_nested_batch_asset("pack_b.zip", &format!("inner.zip/b{}.wav", i), &format!("b{}.wav", i)));
        if i < 3 {
            assets.push(make_nested_batch_asset("pack_a.zip", &format!("inner.zip/a{}.wav", i), &format!("a{}.wav", i)));
        }
        if i < 2 {
            assets.push(make_asset(&format!("p{}.wav", i), 1, "", "audio", "wav"));
        }
    }
    let plan = build_batch_plan(ProcessingCategory::Clap, 9, assets, true);
    let sizes: Vec<usize> = plan.non_zip.iter().map(|b| b.assets.len()).collect();
    // No key first, then pack_a, then pack_b in pieces of 16
    assert_eq!(sizes, vec![2, 3, CLAP_BATCH_SIZE, 4]);
    assert_eq!(plan.non_zip[0].assets[0].filename, "p0.wav");
    assert_eq!(plan.non_zip[1].assets[0].filename, "a0.wav");
    assert_eq!(plan.non_zip[2].assets[0].filename, "b0.wav");
    assert_eq!(plan.non_zip[3].assets[3].filename, "b19.wav");
    for batch in &plan.non_zip {
        assert!(!batch.pre_generate_thumbnails);
        assert_eq!(batch.generation, 9);
    }
}

#[test]
fn zip_groups_keep_asset_order_and_flag() {
    let assets = vec![
        make_asset("plain1.png", 1, "", "image", "png"),
        make_nested_batch_asset("pack.zip", "inner.zip/x.png", "x.png"),
        make_asset("plain2.png", 1, "", "image", "png"),
        make_nested_batch_asset("pack.zip", "inner.zip/y.png", "y.png"),
    ];
    let plan = build_batch_plan(ProcessingCategory::Image, 2, assets, true);
    assert_eq!(plan.zip_groups.len(), 1);
    assert_eq!(plan.zip_groups[0].key, "D:/Assets/pack.zip::inner.zip");
    let names: Vec<&str> = plan.zip_groups[0].batches[0].assets.iter().map(|a| a.filename.as_str()).collect();
    assert_eq!(names, vec!["x.png", "y.png"]);
    let singles: Vec<&str> = plan.non_zip.iter().map(|b| b.assets[0].filename.as_str()).collect();
    assert_eq!(singles, vec!["plain1.png", "plain2.png"]);
    assert!(plan.non_zip.iter().all(|b| b.pre_generate_thumbnails && b.category == ProcessingCategory::Image));
}

#[test]
fn completion_counter_wraps_below_zero() {
    let mut completion = BatchGroupCompletion::new(0);
    assert!(!completion.batch_done());
    assert_eq!(completion.remaining, usize::MAX);
}

#[test]
fn empty_run_plans_nothing() {
    let plan = build_batch_plan(ProcessingCategory::Image, 1, Vec::new(), false);
    assert!(plan.zip_groups.is_empty());
    assert!(plan.non_zip.is_empty());
}

#[test]
fn worker_prefers_the_archive_channel_and_exits_on_a_closed_one() {
    let polled = |zip, nonzip| worker_step(WorkerEvent::Polled { zip, nonzip });
    assert_eq!(polled(ChannelPoll::Batch, ChannelPoll::Batch), WorkerAction::TakeZipBatch);
    assert_eq!(polled(ChannelPoll::Empty, ChannelPoll::Batch), WorkerAction::TakeOtherBatch);
    assert_eq!(polled(ChannelPoll::Empty, ChannelPoll::Empty), WorkerAction::IdleWait);
    assert_eq!(polled(ChannelPoll::Disconnected, ChannelPoll::Batch), WorkerAction::Exit);
    assert_eq!(polled(ChannelPoll::Empty, ChannelPoll::Disconnected), WorkerAction::Exit);
}

#[test]
fn idle_worker_exits_only_after_everything_stopped_and_stayed_empty() {
    assert_eq!(worker_step(WorkerEvent::Idle { all_stopped: false, both_empty: true }), WorkerAction::Poll);
    assert_eq!(worker_step(WorkerEvent::Idle { all_stopped: true, both_empty: false }), WorkerAction::Poll);
    assert_eq!(worker_step(WorkerEvent::Idle { all_stopped: true, both_empty: true }), WorkerAction::GraceWait);
    assert_eq!(worker_step(WorkerEvent::Grace { both_empty: false }), WorkerAction::Poll);
    assert_eq!(worker_step(WorkerEvent::Grace { both_empty: true }), WorkerAction::Exit);
}

#[test]
fn batches_are_dropped_waited_for_or_processed() {
    let cat = |known, batch_generation, stopped, paused| {
        worker_step(WorkerEvent::Category { known, batch_generation, generation: 3, stopped, paused })
    };
    assert_eq!(cat(false, 3, false, false), WorkerAction::SkipBatch);
    assert_eq!(cat(true, 2, false, false), WorkerAction::SkipBatch);
    assert_eq!(cat(true, 3, true, true), WorkerAction::SkipBatch);
    assert_eq!(cat(true, 3, false, true), WorkerAction::WaitPaused);
    assert_eq!(cat(true, 3, false, false), WorkerAction::AcquirePermit);
    assert_eq!(worker_step(WorkerEvent::Permit { acquired: true }), WorkerAction::Process);
    assert_eq!(worker_step(WorkerEvent::Permit { acquired: false }), WorkerAction::SkipAndExit);
    assert_eq!(worker_step(WorkerEvent::NextAsset { stopped: true, paused: true }), WorkerAction::EndBatch);
    assert_eq!(worker_step(WorkerEvent::NextAsset { stopped: false, paused: true }), WorkerAction::WaitPaused);
    assert_eq!(worker_step(WorkerEvent::NextAsset { stopped: false, paused: false }), WorkerAction::ProcessAsset);
}
