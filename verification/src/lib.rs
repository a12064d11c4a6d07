//! Finds groups of byte-identical files among a set of candidates.
//!
//! The library holds the logic of duplicate detection: classifying a
//! filesystem entry from its metadata, deciding whether two candidates have
//! identical content (with a size prefilter that never looks at the bytes),
//! and partitioning a candidate list into ordered duplicate groups.  All
//! filesystem access stays outside: callers classify entries from the
//! metadata they read, attach the bytes they could read to each candidate,
//! and receive back the groups together with the errors met along the way.

pub mod collect;
pub mod errors;
pub mod file_data;
pub mod group;
pub mod grouping;
