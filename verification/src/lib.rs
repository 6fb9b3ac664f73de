//! A verified directory-graph cache and path resolver for a remote
//! hierarchical storage service.
//!
//! A flat, possibly inconsistent list of folder records (each an opaque id,
//! a display name, and parent ids) is turned into a validated graph with an
//! inferred root, plus a cache from absolute `/`-separated paths to ids.
//! Paths are then resolved against the cache, lazily extending it from
//! scoped remote lookups supplied by the caller.
pub mod cache;
pub mod digits;
pub mod errors;
pub mod graph;
pub mod laws;
pub mod models;
pub mod paths;
pub mod records;
pub mod resolve;
pub mod sheets;
pub mod uri;

pub use cache::FileCache;
pub use errors::{BuildError, QueryError, ResolveError};
pub use paths::parse_path;
pub use records::FolderRecord;
