//! Duplicate-file discovery by content hash, with a persistent hash cache.
//!
//! The engine hashes the files that a scan of directory trees finds, keeps
//! the last known record of every path and the paths that share each content
//! hash, reuses a cached record where a file's modification time has not
//! changed, and reports the groups of paths with identical content.

pub mod args;
pub mod cache;
pub mod dedupstate;
pub mod deduplicator;
pub mod digest;
pub mod duplicates;
pub mod hashedfile;
pub mod laws;
pub mod model;
pub mod ranking;
pub mod runs;
pub mod text;
pub mod verbose;

pub use args::Args;
pub use dedupstate::{CacheError, DedupState};
pub use deduplicator::{Deduplicator, FileAction, FileEntry};
pub use duplicates::Duplicates;
pub use hashedfile::{FileHasher, HashedFile, Timestamp};
pub use verbose::{check_verbosity, set_verbosity, Verbosity};

use vstd::prelude::*;

verus! {

/// The file in which the cache is kept unless another is named.
pub const DEFAULT_CACHE_FILE: &'static str = ".fdedup_cache.bin";

} // verus!
