//! A download core for launchers and desktop applications.
//!
//! A download is planned from what the server says of the file: in segments that are
//! fetched side by side, or as one stream. Segments are cut again while they run, rebuilt
//! when they stall, retried with growing pauses, moved to mirrors, and given up for one
//! stream. A finished file is checked and then moved to its destination in one step. The
//! manager keeps the queue and decides which tasks run.
//!
//! All decisions are made here, on plain values. Whoever performs the requests and writes
//! the files reports what happened and is told what to do next.

pub mod bridge;
pub mod client;
pub mod digest;
pub mod error;
pub mod headers;
pub mod hex;
pub mod hosts;
pub mod keys;
pub mod manager;
pub mod plan;
pub mod ranged;
pub mod retry;
pub mod run;
pub mod scheduling;
pub mod segment;
pub mod task;
pub mod text;
pub mod transfer;

pub use error::DownloadError;
pub use manager::{DownloadManager, DownloadProgress};
pub use task::{DownloadEvent, DownloadOptions, DownloadTask, LogLevel, TaskId, TaskState};
