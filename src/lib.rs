//! An incremental asset pipeline: it decides which files of a staging tree are
//! newer than their processed copies, routes each stale file to exactly one
//! processor kind, and keeps at most one work item in flight per source file.
pub mod config;
pub mod paths;
pub mod processing;
pub mod raw;
pub mod mesh;
pub mod laws;
