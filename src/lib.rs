//! Finding duplicate files: files are grouped by byte length, the groups of
//! two or more are grouped again by a hash of their content, and every
//! content group of two or more is reported, all but its first path marked
//! for deletion when that is asked for.
pub mod grouping;
pub mod laws;
pub mod prompt;
pub mod report;
pub mod content;
pub mod scan;
