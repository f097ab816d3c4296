//! A polling file-change watcher library: configuration resolution,
//! per-path modification-time bookkeeping, ignore filtering, and the
//! decision of when a watched command should run.

pub mod config;
pub mod laws;
pub mod relay;
pub mod scan;
pub mod table;
pub mod text;
