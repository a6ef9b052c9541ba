//! The pipeline's configuration and its two orchestration steps on the
//! in-memory trees: gathering (and optionally deduplicating) the complete
//! portrait sets below the downloads root, and picking the incomplete
//! directories to purge from the target. The caller owns the two root paths
//! and applies the returned decisions to disk.

use vstd::prelude::*;

use crate::bytes::RelPath;
use crate::classify::Classifier;
use crate::dedup::dedup_drop;
use crate::dedup::dedup_keep;
use crate::scan::Scan;
use crate::scan::scan_tree;
use crate::tree::Tree;

verus! {

/// The configuration the pipeline consumes. The two root directories stay
/// with the caller, who reads each of them into a tree.
pub struct Args {
    pub prefix: Vec<u8>,
    pub keep_original_path: bool,
    pub remove_useless_dirs: bool,
    pub remove_duplicate_dirs: bool,
}

/// Scans the downloads tree for complete portrait sets and, when asked,
/// removes duplicates; returns the surviving scan and the directories
/// removed as duplicates, for the caller to delete.
pub fn prepare(root: &Tree, args: &Args) -> (r: (Scan, Vec<RelPath>))
    ensures
        r.0.classifier == Classifier::CompleteSet,
        !args.remove_duplicate_dirs ==> crate::bytes::paths_view(r.0.dirs) == scan_tree(
            *root,
            Seq::empty(),
            Classifier::CompleteSet,
        ) && r.1@.len() == 0,
        args.remove_duplicate_dirs ==> crate::bytes::paths_view(r.0.dirs) == dedup_keep(
            *root,
            scan_tree(*root, Seq::empty(), Classifier::CompleteSet),
            Set::empty(),
        ) && crate::bytes::paths_view(r.1) == dedup_drop(
            *root,
            scan_tree(*root, Seq::empty(), Classifier::CompleteSet),
            Set::empty(),
        ),
{
    let mut scan = Scan::new(root, Classifier::CompleteSet);
    if args.remove_duplicate_dirs {
        let dups = scan.erase_duplicates(root);
        (scan, dups)
    } else {
        (scan, Vec::new())
    }
}

/// Picks the directories to purge from the target tree: every incomplete
/// directory when `remove_useless_dirs` is set, none otherwise.
pub fn cleanup(target: &Tree, args: &Args) -> (r: Vec<RelPath>)
    ensures
        args.remove_useless_dirs ==> crate::bytes::paths_view(r) == scan_tree(
            *target,
            Seq::empty(),
            Classifier::IncompleteSet,
        ),
        !args.remove_useless_dirs ==> r@.len() == 0,
{
    if !args.remove_useless_dirs {
        let r: Vec<RelPath> = Vec::new();
        return r;
    }
    let scan = Scan::new(target, Classifier::IncompleteSet);
    scan.dirs
}

} // verus!
