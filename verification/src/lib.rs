//! In-memory mirror of a watched filesystem tree for a log-collection agent.
//!
//! The crate tracks a configured set of root directories, discovers every
//! file, directory and symlink reachable from them, keeps a keyed entry store
//! with path indices, and turns raw filesystem notifications into a stream of
//! semantic events (`Initialize`, `New`, `Write`, `Delete`) for downstream
//! consumers.
//!
//! The cache never touches the disk or the kernel watcher itself: metadata
//! questions are answered from a [`snapshot::FsSnapshot`] the embedding
//! program observes, and the kernel watch calls the cache issues are handed
//! out as [`watcher::WatchAction`] values for it to replay.

pub mod assoc;
pub mod cache;
pub mod entry;
pub mod event;
pub mod paths;
pub mod rule;
pub mod snapshot;
pub mod store;
pub mod watcher;
