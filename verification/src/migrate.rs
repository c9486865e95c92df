//! Progress of the one-time data migration, which the frontend polls while it runs.

use vstd::prelude::*;

verus! {

/// The library's data version; bumped with each migration step.
pub const DATA_VERSION: i64 = 1;

/// Where the migration stands.
pub struct MigrationProgress {
    pub message: String,
    pub done: u64,
    /// 0 while the amount of work is not known yet.
    pub total: u64,
    /// Set when the migration failed; it is retried on the next start.
    pub error: Option<String>,
}

impl MigrationProgress {
    /// A copy of the progress.
    pub fn copy(&self) -> (r: MigrationProgress)
        ensures
            r == *self,
    {
        MigrationProgress {
            message: self.message.clone(),
            done: self.done,
            total: self.total,
            error: crate::models::copy_text(&self.error),
        }
    }

    /// The progress while the migration is being prepared.
    pub fn preparing() -> (r: MigrationProgress)
        ensures
            r.message@ == seq!['P', 'r', 'e', 'p', 'a', 'r', 'i', 'n', 'g', '\u{2026}'],
            r.done == 0,
            r.total == 0,
            r.error is None,
    {
        let m = "Preparing\u{2026}";
        proof {
            reveal_strlit("Preparing\u{2026}");
        }
        MigrationProgress { message: m.to_string(), done: 0, total: 0, error: None }
    }

    /// A step of the migration: `done` of `total` items.
    pub fn step(message: &str, done: u64, total: u64) -> (r: MigrationProgress)
        ensures
            r.message@ == message@,
            r.done == done,
            r.total == total,
            r.error is None,
    {
        MigrationProgress { message: message.to_string(), done, total, error: None }
    }

    /// A failed migration.
    pub fn failed(error: String) -> (r: MigrationProgress)
        ensures
            r.message@ == Seq::<char>::empty(),
            r.done == 0,
            r.total == 0,
            r.error == Some(error),
    {
        MigrationProgress { message: String::new(), done: 0, total: 0, error: Some(error) }
    }
}

/// The migration the frontend is told about: none once there is nothing to wait for.
pub struct MigrationState {
    current: Option<MigrationProgress>,
}

impl MigrationState {
    pub closed spec fn view_current(&self) -> Option<MigrationProgress> {
        self.current
    }

    /// Nothing to report.
    pub fn new() -> (r: MigrationState)
        ensures
            r.view_current() is None,
    {
        MigrationState { current: None }
    }

    /// The running (or failed) migration, `None` once there is nothing to wait for.
    pub fn progress(&self) -> (r: Option<MigrationProgress>)
        ensures
            r == self.view_current(),
    {
        match &self.current {
            Some(p) => Some(p.copy()),
            None => None,
        }
    }

    /// Replaces what is reported.
    pub fn set_progress(&mut self, progress: Option<MigrationProgress>)
        ensures
            final(self).view_current() == progress,
    {
        self.current = progress;
    }
}

} // verus!
