//! An in-memory picture of a directory tree: regular file names (with the
//! bytes of the files the pipeline may need to fingerprint) and named
//! subdirectories.

use vstd::prelude::*;

use crate::bytes::Name;
use crate::bytes::RelPath;
use crate::bytes::bytes_eq;
use crate::bytes::path_view;

verus! {

/// A regular file directly inside a directory. `content` is `None` when the
/// file's bytes were not (or could not be) read.
pub struct FileNode {
    pub name: Name,
    pub content: Option<Vec<u8>>,
}

/// A named subdirectory.
pub struct Subdir {
    pub name: Name,
    pub tree: Tree,
}

/// A directory: its regular files and its subdirectories, each in the order
/// the caller listed them.
pub struct Tree {
    pub files: Vec<FileNode>,
    pub subdirs: Vec<Subdir>,
}

/// A well-formed tree names no two subdirectories of one directory alike.
pub open spec fn wf(t: Tree) -> bool
    decreases t,
{
    &&& forall|i: int, j: int|
        0 <= i < j < t.subdirs@.len() ==> t.subdirs@[i].name@ != t.subdirs@[j].name@
    &&& forall|i: int| 0 <= i < t.subdirs@.len() ==> wf(#[trigger] t.subdirs@[i].tree)
}

/// The first file of `files` named `nm`, if any.
pub open spec fn find_file(files: Seq<FileNode>, nm: Seq<u8>) -> Option<FileNode>
    decreases files.len(),
{
    if files.len() == 0 {
        None
    } else if files.first().name@ == nm {
        Some(files.first())
    } else {
        find_file(files.drop_first(), nm)
    }
}

/// The first subdirectory of `s` named `nm`, if any.
pub open spec fn find_subdir(s: Seq<Subdir>, nm: Seq<u8>) -> Option<Subdir>
    decreases s.len(),
{
    if s.len() == 0 {
        None
    } else if s.first().name@ == nm {
        Some(s.first())
    } else {
        find_subdir(s.drop_first(), nm)
    }
}

/// The directory reached from `t` by following the components of `p`.
pub open spec fn lookup(t: Tree, p: Seq<Seq<u8>>) -> Option<Tree>
    decreases p.len(),
{
    if p.len() == 0 {
        Some(t)
    } else {
        match find_subdir(t.subdirs@, p.first()) {
            None => None,
            Some(sd) => lookup(sd.tree, p.drop_first()),
        }
    }
}

/// Finds the first file of `t` named `nm`.
pub fn get_file<'a>(t: &'a Tree, nm: &Vec<u8>) -> (r: Option<&'a FileNode>)
    ensures
        match r {
            Some(f) => find_file(t.files@, nm@) == Some(*f),
            None => find_file(t.files@, nm@) is None,
        },
{
    let mut i: usize = 0;
    proof {
        assert(t.files@.skip(0) =~= t.files@);
    }
    while i < t.files.len()
        invariant
            i <= t.files@.len(),
            find_file(t.files@, nm@) == find_file(t.files@.skip(i as int), nm@),
        decreases t.files@.len() - i,
    {
        proof {
            assert(t.files@.skip(i as int).first() == t.files@[i as int]);
            assert(t.files@.skip(i as int).drop_first() =~= t.files@.skip(i + 1));
        }
        if bytes_eq(&t.files[i].name, nm) {
            return Some(&t.files[i]);
        }
        i = i + 1;
    }
    proof {
        assert(t.files@.skip(t.files@.len() as int).len() == 0);
    }
    None
}

/// Finds the first subdirectory of `t` named `nm`.
pub fn get_subdir<'a>(t: &'a Tree, nm: &Vec<u8>) -> (r: Option<&'a Subdir>)
    ensures
        match r {
            Some(sd) => find_subdir(t.subdirs@, nm@) == Some(*sd),
            None => find_subdir(t.subdirs@, nm@) is None,
        },
{
    let mut i: usize = 0;
    proof {
        assert(t.subdirs@.skip(0) =~= t.subdirs@);
    }
    while i < t.subdirs.len()
        invariant
            i <= t.subdirs@.len(),
            find_subdir(t.subdirs@, nm@) == find_subdir(t.subdirs@.skip(i as int), nm@),
        decreases t.subdirs@.len() - i,
    {
        proof {
            assert(t.subdirs@.skip(i as int).first() == t.subdirs@[i as int]);
            assert(t.subdirs@.skip(i as int).drop_first() =~= t.subdirs@.skip(i + 1));
        }
        if bytes_eq(&t.subdirs[i].name, nm) {
            return Some(&t.subdirs[i]);
        }
        i = i + 1;
    }
    proof {
        assert(t.subdirs@.skip(t.subdirs@.len() as int).len() == 0);
    }
    None
}

/// Follows the components of `p` down from `t`.
pub fn lookup_dir<'a>(t: &'a Tree, p: &RelPath) -> (r: Option<&'a Tree>)
    ensures
        match r {
            Some(d) => lookup(*t, path_view(*p)) == Some(*d),
            None => lookup(*t, path_view(*p)) is None,
        },
{
    let mut cur: &Tree = t;
    let mut i: usize = 0;
    proof {
        assert(path_view(*p).skip(0) =~= path_view(*p));
    }
    while i < p.len()
        invariant
            i <= p@.len(),
            lookup(*t, path_view(*p)) == lookup(*cur, path_view(*p).skip(i as int)),
        decreases p@.len() - i,
    {
        proof {
            assert(path_view(*p).skip(i as int).first() == path_view(*p)[i as int]);
            assert(path_view(*p).skip(i as int).drop_first() =~= path_view(*p).skip(i + 1));
        }
        match get_subdir(cur, &p[i]) {
            Some(sd) => {
                cur = &sd.tree;
            },
            None => {
                return None;
            },
        }
        i = i + 1;
    }
    proof {
        assert(path_view(*p).skip(p@.len() as int).len() == 0);
    }
    Some(cur)
}

} // verus!
