//! Organizes a tree of unpacked portrait directories into a flat target
//! directory: classifies directories by the presence of three marker files,
//! removes content-identical duplicates, and plans collision-free
//! destination names.
//!
//! The library works on an in-memory picture of the directory trees; the
//! caller reads the filesystem into that picture, invokes the pipeline, and
//! applies the returned move and delete decisions back to disk.

pub mod bytes;
pub mod checksum;
pub mod classify;
pub mod dedup;
pub mod pipeline;
pub mod plan;
pub mod scan;
pub mod tree;
