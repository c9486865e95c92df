//! Reports the library hands to the frontend: database and server health, folder
//! removal, search exclusions, setup state, task counts and migration progress.

use vstd::prelude::*;

verus! {

/// What the embedding server reports about itself.
pub struct HealthInfo {
    pub status: String,
    pub model: String,
    pub device: String,
    pub embedding_dim: i32,
}

/// Size and contents of the library database.
pub struct DbInfo {
    pub path: String,
    pub main_size: u64,
    pub wal_size: u64,
    pub page_count: i64,
    pub page_size: i64,
    pub freelist_count: i64,
    pub total_assets: i64,
    pub total_folders: i64,
}

/// Progress of removing a source folder.
pub struct FolderRemoveProgress {
    pub phase: String,
    pub deleted: i64,
    pub total: i64,
}

/// A directory left out of the searchable text: inside the archive `zip_file`, or on
/// disk where there is none.
pub struct SearchExclude {
    pub zip_file: Option<String>,
    pub excluded_path: String,
}

/// Which parts of the embedding setup are on disk.
pub struct ClapSetupState {
    pub uv_installed: bool,
    pub cache_exists: bool,
}

/// Tasks by status.
pub struct TaskStats {
    pub total: usize,
    pub pending: usize,
    pub queued: usize,
    pub processing: usize,
    pub paused: usize,
    pub complete: usize,
    pub error: usize,
    pub cancelled: usize,
}

/// Outcome of a write-ahead-log checkpoint.
#[derive(Clone, Copy, Debug)]
pub struct WalCheckpointResult {
    pub busy: bool,
    pub wal_pages_before: i64,
    pub wal_pages: i64,
    pub attempts: u32,
}

/// A step of starting the embedding server, as reported to the frontend.
pub struct ClapStartupProgress {
    pub phase: String,
    pub detail: Option<String>,
}

impl ClapStartupProgress {
    pub fn new(phase: &str, detail: Option<&str>) -> (r: ClapStartupProgress)
        ensures
            r.phase@ == phase@,
            match detail {
                Some(d) => r.detail matches Some(s) && s@ == d@,
                None => r.detail is None,
            },
    {
        ClapStartupProgress {
            phase: phase.to_string(),
            detail: match detail {
                Some(d) => Some(d.to_string()),
                None => None,
            },
        }
    }
}

} // verus!
