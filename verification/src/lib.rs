//! Editing of colon-delimited, `PATH`-like values: splitting into segments,
//! and merging prepended, current and appended segments into one value that
//! holds no blank, removed or repeated segment.

pub mod segment;
pub mod path_set;
pub mod merge;
pub mod merge_laws;
