use asseteer::app_dirs::{join_path_str, log_dir, uv_bin_path, uv_cache_dir, AppDataDir};
use asseteer::grouping::group_by_key;
use asseteer::migrate::{MigrationProgress, MigrationState};
use asseteer::records::ClapStartupProgress;
use asseteer::tasks::TaskResult;

#[test]
fn data_dir_is_set_once() {
    let mut dir = AppDataDir::new();
    assert_eq!(dir.app_data_dir("/tmp", false), "/tmp/asseteer");
    dir.init_app_data_dir("/data".to_string());
    dir.init_app_data_dir("/other".to_string());
    assert_eq!(dir.app_data_dir("/tmp", false), "/data");
}

#[test]
fn server_files_live_under_the_data_dir() {
    assert_eq!(uv_bin_path("/data", false), "/data/uv/uv");
    assert_eq!(uv_bin_path(r"C:\data", true), r"C:\data\uv\uv.exe");
    assert_eq!(uv_cache_dir("/data/", false), "/data/uv-cache");
    assert_eq!(log_dir("/data", false), "/data/clap-logs");
    assert_eq!(join_path_str("", "x", false), "x");
}

#[test]
fn migration_progress_reads_back_what_was_set() {
    let mut state = MigrationState::new();
    assert!(state.progress().is_none());
    state.set_progress(Some(MigrationProgress::preparing()));
    let p = state.progress().unwrap();
    assert_eq!(p.message, "Preparing\u{2026}");
    state.set_progress(Some(MigrationProgress::step("Re-indexing", 3, 10)));
    let p = state.progress().unwrap();
    assert_eq!((p.message.as_str(), p.done, p.total), ("Re-indexing", 3, 10));
    state.set_progress(Some(MigrationProgress::failed("disk full".to_string())));
    assert_eq!(state.progress().unwrap().error.as_deref(), Some("disk full"));
    state.set_progress(None);
    assert!(state.progress().is_none());
}

#[test]
fn task_results() {
    let ok = TaskResult::success(Some("done".to_string()));
    assert!(ok.success && ok.error_message.is_none());
    assert_eq!(ok.output_data.as_deref(), Some("done"));
    let err = TaskResult::error("boom".to_string());
    assert!(!err.success);
    assert_eq!(err.error_message.as_deref(), Some("boom"));
}

#[test]
fn startup_progress_copies_its_text() {
    let p = ClapStartupProgress::new("starting", Some("port 5555"));
    assert_eq!(p.phase, "starting");
    assert_eq!(p.detail.as_deref(), Some("port 5555"));
}

#[test]
fn grouping_by_key_collects_positions() {
    let keys = vec![Some("b".to_string()), None, Some("a".to_string()), Some("b".to_string()), None];
    let g = group_by_key(&keys);
    assert_eq!(g.names, vec!["b".to_string(), "a".to_string()]);
    assert_eq!(g.groups, vec![vec![0, 3], vec![2]]);
    assert_eq!(g.unkeyed, vec![1, 4]);
}
