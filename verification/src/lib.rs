//! Directory-tree snapshots and their comparison.
//!
//! A snapshot is the set of entries below a root directory, each named by its
//! normalized path and optionally paired with a digest of its content. Two
//! snapshots of the same kind are compared entry by entry; every path on which
//! they differ is classified as new, absent or changed.
//!
//! The library never touches the file system. Walking a tree and hashing a
//! file are state machines: the caller performs each requested action and
//! reports back what happened.

pub mod diff;
pub mod gather;
pub mod hash;
pub mod iter_dir;
pub mod iterator;
pub mod listing;
pub mod merge;
pub mod order;
pub mod path;
pub mod sorted;
pub mod text;
pub mod tree;
