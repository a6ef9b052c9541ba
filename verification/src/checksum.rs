//! Content fingerprints: the MD5 digest of each of the three marker files
//! of a complete portrait set. Two directories with equal fingerprints are
//! treated as interchangeable duplicates.

use vstd::prelude::*;

use crate::bytes::RelPath;
use crate::bytes::bytes_eq;
use crate::bytes::path_view;
use crate::classify::full_name;
use crate::classify::fulllength_png;
use crate::classify::medium_name;
use crate::classify::medium_png;
use crate::classify::small_name;
use crate::classify::small_png;
use crate::tree::Tree;
use crate::tree::find_file;
use crate::tree::get_file;
use crate::tree::lookup;
use crate::tree::lookup_dir;

verus! {

/// The MD5 digest of a sequence of bytes, as the md5 crate computes it.
pub uninterp spec fn md5_of(data: Seq<u8>) -> Seq<u8>;

/// Relies on md5::compute: returns the 16-byte MD5 digest of the input
/// bytes, a function of those bytes alone.
#[verifier::external_body]
fn md5_digest(data: &Vec<u8>) -> (r: Vec<u8>)
    ensures
        r@ == md5_of(data@),
        r@.len() == 16,
{
    md5::compute(data.as_slice()).0.to_vec()
}

/// The digest of the marker file named `nm` directly inside `t`: absent when
/// the file is absent or its bytes were not read.
pub open spec fn marker_digest(t: Tree, nm: Seq<u8>) -> Option<Seq<u8>> {
    match find_file(t.files@, nm) {
        None => None,
        Some(f) => match f.content {
            None => None,
            Some(c) => Some(md5_of(c@)),
        },
    }
}

/// The fingerprint of the directory at `p` below `root`: the three marker
/// digests, or `None` when the directory or any marker file's bytes are
/// unavailable.
pub open spec fn fingerprint_of(root: Tree, p: Seq<Seq<u8>>) -> Option<
    (Seq<u8>, Seq<u8>, Seq<u8>),
> {
    match lookup(root, p) {
        None => None,
        Some(d) => match (marker_digest(d, small_name()), marker_digest(d, medium_name()),
        marker_digest(d, full_name())) {
            (Some(s), Some(m), Some(f)) => Some((s, m, f)),
            _ => None,
        },
    }
}

/// The composite digest of a directory's three marker files.
pub struct Checksum {
    pub small: Vec<u8>,
    pub medium: Vec<u8>,
    pub full: Vec<u8>,
}

/// The mathematical value of a checksum.
pub open spec fn checksum_view(c: Checksum) -> (Seq<u8>, Seq<u8>, Seq<u8>) {
    (c.small@, c.medium@, c.full@)
}

/// Digests one marker file of `d`.
fn marker_checksum(d: &Tree, nm: &Vec<u8>) -> (r: Option<Vec<u8>>)
    ensures
        match r {
            Some(v) => marker_digest(*d, nm@) == Some(v@),
            None => marker_digest(*d, nm@) is None,
        },
{
    match get_file(d, nm) {
        None => None,
        Some(f) => match &f.content {
            None => None,
            Some(c) => Some(md5_digest(c)),
        },
    }
}

impl Checksum {
    /// The fingerprint of the directory at `dir` below `root`, if all three
    /// marker files are present with their bytes.
    pub fn from_dir(root: &Tree, dir: &RelPath) -> (r: Option<Checksum>)
        ensures
            match r {
                Some(c) => fingerprint_of(*root, path_view(*dir)) == Some(checksum_view(c)),
                None => fingerprint_of(*root, path_view(*dir)) is None,
            },
    {
        let d = match lookup_dir(root, dir) {
            None => {
                return None;
            },
            Some(d) => d,
        };
        let small = match marker_checksum(d, &small_png()) {
            None => {
                return None;
            },
            Some(v) => v,
        };
        let medium = match marker_checksum(d, &medium_png()) {
            None => {
                return None;
            },
            Some(v) => v,
        };
        let full = match marker_checksum(d, &fulllength_png()) {
            None => {
                return None;
            },
            Some(v) => v,
        };
        Some(Checksum { small, medium, full })
    }

    /// Whether two checksums hold bitwise-equal digests.
    pub fn same(&self, other: &Checksum) -> (r: bool)
        ensures
            r == (checksum_view(*self) == checksum_view(*other)),
    {
        let r = bytes_eq(&self.small, &other.small) && bytes_eq(&self.medium, &other.medium)
            && bytes_eq(&self.full, &other.full);
        r
    }
}

} // verus!
