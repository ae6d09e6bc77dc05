//! Verified core of a code-size explorer: filters for what a scan admits,
//! line counting, aggregation of per-file counts into a directory tree,
//! language registry lookups, and the integer side of the treemap layout.
pub mod display;
pub mod filter;
pub mod format;
pub mod git;
pub mod language;
pub mod paths;
pub mod scan;
pub mod session;
pub mod sort;
pub mod text;
pub mod tree;
pub mod treemap;
pub mod visualization;
