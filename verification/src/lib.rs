//! Asset library core: what a folder scan indexes (files on disk, entries of nested ZIP
//! archives) and how it is filed and made searchable; reading assets out of nested
//! archives through a memory-budgeted cache; rescans; work planning and request
//! queues; and the upkeep around the semantic-search server (its release, command
//! lines, logs and port), drag-out and clipboard hand-over.

pub mod app_dirs;
pub mod archive;
pub mod clap_batch;
pub mod cli;
pub mod clipboard;
pub mod directories;
pub mod drag_files;
pub mod external;
pub mod grouping;
pub mod housekeeping;
pub mod inline_images;
pub mod log_tail;
pub mod migrate;
pub mod models;
pub mod paths;
pub mod records;
pub mod rescan;
pub mod scan;
pub mod scan_files;
pub mod server_startup;
pub mod tasks;
pub mod text;
pub mod thumbnail_worker;
pub mod torch_index;
pub mod uv_release;
pub mod work_queue;
pub mod zip_listing;
pub mod zip_directory;
pub mod zip_cache;
