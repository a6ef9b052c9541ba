//! The tree scanner: walks a directory tree and records, relative to the
//! root, every directory the classifier accepts. At each directory the
//! accepted subdirectories are recorded in listing order, and then each
//! subdirectory's own subtree is walked in the same order, so an ancestor is
//! always recorded before any of its descendants.

use vstd::prelude::*;

use crate::bytes::RelPath;
use crate::bytes::clone_name;
use crate::bytes::clone_path;
use crate::bytes::path_view;
use crate::bytes::paths_view;
use crate::classify::Classifier;
use crate::classify::accepts;
use crate::classify::classifier_accepts;
use crate::tree::Subdir;
use crate::tree::Tree;
use crate::tree::wf;

verus! {

/// The accepted directories among `s`, each recorded as `at` extended with
/// its name, in listing order.
pub open spec fn scan_level(s: Seq<Subdir>, at: Seq<Seq<u8>>, c: Classifier) -> Seq<Seq<Seq<u8>>>
    decreases s.len(),
{
    if s.len() == 0 {
        Seq::empty()
    } else {
        scan_level(s.drop_last(), at, c) + (if classifier_accepts(c, s.last().tree) {
            seq![at.push(s.last().name@)]
        } else {
            Seq::empty()
        })
    }
}

/// The records produced by walking each subtree of `s` in listing order.
pub open spec fn scan_subtrees(s: Seq<Subdir>, at: Seq<Seq<u8>>, c: Classifier) -> Seq<
    Seq<Seq<u8>>,
>
    decreases s,
{
    if s.len() == 0 {
        Seq::empty()
    } else {
        scan_subtrees(s.drop_last(), at, c) + scan_tree(
            s.last().tree,
            at.push(s.last().name@),
            c,
        )
    }
}

/// Every directory below `t` that the classifier accepts, each as its path
/// relative to `t` prefixed by `at`: first the accepted children of `t`, then
/// the records of each child's subtree in turn.
pub open spec fn scan_tree(t: Tree, at: Seq<Seq<u8>>, c: Classifier) -> Seq<Seq<Seq<u8>>>
    decreases t,
{
    scan_level(t.subdirs@, at, c) + scan_subtrees(t.subdirs@, at, c)
}

/// The result of a scan: the classifier it ran with, and the recorded
/// directories in discovery order, as paths relative to the scanned root.
pub struct Scan {
    pub classifier: Classifier,
    pub dirs: Vec<RelPath>,
}

impl Scan {
    /// Walks the tree rooted at `root` and records every directory the
    /// classifier accepts, in discovery order. The root itself is not a
    /// candidate.
    pub fn new(root: &Tree, classifier: Classifier) -> (s: Scan)
        ensures
            s.classifier == classifier,
            paths_view(s.dirs) == scan_tree(*root, Seq::empty(), classifier),
    {
        let mut dirs: Vec<RelPath> = Vec::new();
        let at: RelPath = Vec::new();
        proof {
            assert(path_view(at) =~= Seq::<Seq<u8>>::empty());
            assert(paths_view(dirs) =~= Seq::<Seq<Seq<u8>>>::empty());
        }
        scan_dir(root, &at, classifier, &mut dirs);
        Scan { classifier, dirs }
    }
}

/// Walks one directory: records its accepted subdirectories, then descends
/// into each of them.
fn scan_dir(t: &Tree, at: &RelPath, c: Classifier, out: &mut Vec<RelPath>)
    ensures
        paths_view(*final(out)) == paths_view(*old(out)) + scan_tree(*t, path_view(*at), c),
    decreases *t,
{
    let ghost out0: Seq<Seq<Seq<u8>>> = paths_view(*out);
    let ghost atv: Seq<Seq<u8>> = path_view(*at);
    let n = t.subdirs.len();
    let mut i: usize = 0;
    proof {
        assert(t.subdirs@.take(0).len() == 0);
        assert(out0 + Seq::<Seq<Seq<u8>>>::empty() =~= out0);
    }
    while i < n
        invariant
            n == t.subdirs@.len(),
            i <= n,
            paths_view(*out) == out0 + scan_level(t.subdirs@.take(i as int), atv, c),
            atv == path_view(*at),
        decreases n - i,
    {
        proof {
            assert(t.subdirs@.take(i + 1).drop_last() =~= t.subdirs@.take(i as int));
            assert(t.subdirs@.take(i + 1).last() == t.subdirs@[i as int]);
        }
        if accepts(c, &t.subdirs[i].tree) {
            let mut p = clone_path(at);
            p.push(clone_name(&t.subdirs[i].name));
            proof {
                assert(path_view(p) =~= atv.push(t.subdirs@[i as int].name@));
            }
            out.push(p);
            proof {
                let x = atv.push(t.subdirs@[i as int].name@);
                let prev = out0 + scan_level(t.subdirs@.take(i as int), atv, c);
                assert(scan_level(t.subdirs@.take(i + 1), atv, c) == scan_level(
                    t.subdirs@.take(i as int),
                    atv,
                    c,
                ) + seq![x]);
                assert(paths_view(*out) =~= prev.push(x));
                assert(prev.push(x) =~= out0 + (scan_level(t.subdirs@.take(i as int), atv, c)
                    + seq![x]));
            }
        } else {
            proof {
                assert(scan_level(t.subdirs@.take(i + 1), atv, c) =~= scan_level(
                    t.subdirs@.take(i as int),
                    atv,
                    c,
                ));
            }
        }
        i = i + 1;
    }
    let ghost out1: Seq<Seq<Seq<u8>>> = paths_view(*out);
    proof {
        assert(t.subdirs@.take(n as int) =~= t.subdirs@);
        assert(t.subdirs@.take(0).len() == 0);
        assert(out1 + Seq::<Seq<Seq<u8>>>::empty() =~= out1);
    }
    let mut j: usize = 0;
    while j < n
        invariant
            n == t.subdirs@.len(),
            j <= n,
            paths_view(*out) == out1 + scan_subtrees(t.subdirs@.take(j as int), atv, c),
            atv == path_view(*at),
        decreases n - j,
    {
        proof {
            assert(t.subdirs@.take(j + 1).drop_last() =~= t.subdirs@.take(j as int));
            assert(t.subdirs@.take(j + 1).last() == t.subdirs@[j as int]);
        }
        let mut p = clone_path(at);
        p.push(clone_name(&t.subdirs[j].name));
        proof {
            assert(path_view(p) =~= atv.push(t.subdirs@[j as int].name@));
            assert(decreases_to!(*t => t.subdirs@[j as int].tree));
        }
        scan_dir(&t.subdirs[j].tree, &p, c, out);
        j = j + 1;
    }
    proof {
        assert(t.subdirs@.take(n as int) =~= t.subdirs@);
        assert(out1 + scan_subtrees(t.subdirs@, atv, c) =~= out0 + scan_tree(*t, atv, c));
    }
}


/// Whether `a` is a strict ancestor path of `b`.
pub open spec fn path_strict_prefix(a: Seq<Seq<u8>>, b: Seq<Seq<u8>>) -> bool {
    a.len() < b.len() && b.take(a.len() as int) == a
}

/// Every record of one level has one more component than `at` and extends
/// `at`.
proof fn lemma_scan_level_shape(s: Seq<Subdir>, at: Seq<Seq<u8>>, c: Classifier)
    ensures
        forall|i: int|
            0 <= i < scan_level(s, at, c).len() ==> (#[trigger] scan_level(s, at, c)[i]).len()
                == at.len() + 1 && scan_level(s, at, c)[i].take(at.len() as int) == at,
    decreases s.len(),
{
    if s.len() == 0 {
    } else {
        lemma_scan_level_shape(s.drop_last(), at, c);
        let r = scan_level(s, at, c);
        let rp = scan_level(s.drop_last(), at, c);
        assert forall|i: int|
            0 <= i < r.len() implies (#[trigger] r[i]).len() == at.len() + 1 && r[i].take(
            at.len() as int,
        ) == at by {
            if i < rp.len() {
                assert(r[i] == rp[i]);
            } else {
                assert(r[i] == at.push(s.last().name@));
                assert(at.push(s.last().name@).take(at.len() as int) =~= at);
            }
        }
    }
}

/// Every record of a subtree walk lies at least two levels below `at`, and
/// its first `at.len() + 1` components name one of the subdirectories.
proof fn lemma_scan_subtrees_shape(s: Seq<Subdir>, at: Seq<Seq<u8>>, c: Classifier)
    ensures
        forall|i: int|
            0 <= i < scan_subtrees(s, at, c).len() ==> (#[trigger] scan_subtrees(s, at, c)[i]).len()
                > at.len() + 1 && exists|k: int|
                0 <= k < s.len() && scan_subtrees(s, at, c)[i].take(at.len() as int + 1) == at.push(
                    s[k].name@,
                ),
    decreases s,
{
    if s.len() == 0 {
    } else {
        let sp = s.drop_last();
        let at2 = at.push(s.last().name@);
        lemma_scan_subtrees_shape(sp, at, c);
        lemma_scan_shape(s.last().tree, at2, c);
        let spart = scan_subtrees(sp, at, c);
        let tpart = scan_tree(s.last().tree, at2, c);
        assert forall|i: int|
            0 <= i < scan_subtrees(s, at, c).len() implies (#[trigger] scan_subtrees(
            s,
            at,
            c,
        )[i]).len() > at.len() + 1 && exists|k: int|
            0 <= k < s.len() && scan_subtrees(s, at, c)[i].take(at.len() as int + 1) == at.push(
                s[k].name@,
            ) by {
            let e = scan_subtrees(s, at, c)[i];
            if i < spart.len() {
                assert(e == spart[i]);
                let k = choose|k: int|
                    0 <= k < sp.len() && spart[i].take(at.len() as int + 1) == at.push(sp[k].name@);
                assert(sp[k] == s[k]);
                assert(e.take(at.len() as int + 1) == at.push(s[k].name@));
            } else {
                assert(e == tpart[i - spart.len()]);
                assert(e.len() > at2.len());
                assert(e.take(at2.len() as int) == at2);
                let k = s.len() - 1;
                assert(e.take(at.len() as int + 1) == at.push(s[k].name@));
            }
        }
    }
}

/// Every record of a tree walk lies strictly below `at` and extends `at`.
proof fn lemma_scan_shape(t: Tree, at: Seq<Seq<u8>>, c: Classifier)
    ensures
        forall|i: int|
            0 <= i < scan_tree(t, at, c).len() ==> (#[trigger] scan_tree(t, at, c)[i]).len()
                > at.len() && scan_tree(t, at, c)[i].take(at.len() as int) == at,
    decreases t,
{
    lemma_scan_level_shape(t.subdirs@, at, c);
    lemma_scan_subtrees_shape(t.subdirs@, at, c);
    let lpart = scan_level(t.subdirs@, at, c);
    let spart = scan_subtrees(t.subdirs@, at, c);
    assert forall|i: int|
        0 <= i < scan_tree(t, at, c).len() implies (#[trigger] scan_tree(t, at, c)[i]).len()
        > at.len() && scan_tree(t, at, c)[i].take(at.len() as int) == at by {
        let e = scan_tree(t, at, c)[i];
        if i < lpart.len() {
            assert(e == lpart[i]);
        } else {
            assert(e == spart[i - lpart.len()]);
            assert(e.take(at.len() as int + 1).take(at.len() as int) =~= e.take(at.len() as int));
            let k = choose|k: int|
                0 <= k < t.subdirs@.len() && e.take(at.len() as int + 1) == at.push(t.subdirs@[k].name@);
            assert(at.push(t.subdirs@[k].name@).take(at.len() as int) =~= at);
        }
    }
}

/// Within the records of the subtree walks of one level, an ancestor path
/// always precedes its descendants.
proof fn lemma_scan_subtrees_order(s: Seq<Subdir>, at: Seq<Seq<u8>>, c: Classifier)
    requires
        forall|i: int, j: int| 0 <= i < j < s.len() ==> s[i].name@ != s[j].name@,
        forall|i: int| 0 <= i < s.len() ==> wf(#[trigger] s[i].tree),
    ensures
        forall|i: int, j: int|
            0 <= i < scan_subtrees(s, at, c).len() && 0 <= j < scan_subtrees(s, at, c).len()
                && path_strict_prefix(
                #[trigger] scan_subtrees(s, at, c)[i],
                #[trigger] scan_subtrees(s, at, c)[j],
            ) ==> i < j,
    decreases s,
{
    if s.len() == 0 {
    } else {
        let sp = s.drop_last();
        let at2 = at.push(s.last().name@);
        assert(forall|i: int| 0 <= i < sp.len() ==> sp[i] == s[i]);
        lemma_scan_subtrees_order(sp, at, c);
        assert(wf(s.last().tree));
        lemma_scan_tree_order(s.last().tree, at2, c);
        lemma_scan_subtrees_shape(sp, at, c);
        lemma_scan_shape(s.last().tree, at2, c);
        let spart = scan_subtrees(sp, at, c);
        let tpart = scan_tree(s.last().tree, at2, c);
        assert forall|i: int, j: int|
            0 <= i < scan_subtrees(s, at, c).len() && 0 <= j < scan_subtrees(s, at, c).len()
                && path_strict_prefix(
                #[trigger] scan_subtrees(s, at, c)[i],
                #[trigger] scan_subtrees(s, at, c)[j],
            ) implies i < j by {
            let e1 = scan_subtrees(s, at, c)[i];
            let e2 = scan_subtrees(s, at, c)[j];
            if i < spart.len() && j < spart.len() {
                assert(e1 == spart[i] && e2 == spart[j]);
            } else if i >= spart.len() && j >= spart.len() {
                assert(e1 == tpart[i - spart.len()] && e2 == tpart[j - spart.len()]);
            } else if i < spart.len() && j >= spart.len() {
                // an earlier sibling's record cannot prefix a later subtree's
                // record, but the order already holds here
            } else {
                // e1 walks the last subtree, e2 an earlier one: their
                // components at position at.len() name different
                // subdirectories, so no prefix relation is possible
                assert(e1 == tpart[i - spart.len()]);
                assert(e2 == spart[j]);
                assert(e1.len() > at2.len());
                assert(e1.take(at2.len() as int) == at2);
                let k = choose|k: int|
                    0 <= k < sp.len() && spart[j].take(at.len() as int + 1) == at.push(sp[k].name@);
                assert(e2.take(at.len() as int + 1) == at.push(s[k].name@));
                assert(path_strict_prefix(e1, e2));
                assert(e2.take(e1.len() as int) == e1);
                assert(e2.take(e1.len() as int).take(at.len() as int + 1) =~= e2.take(at.len() as int + 1));
                assert(e1.take(at.len() as int + 1) == at.push(s[k].name@));
                assert(at2[at.len() as int] == s[k].name@);
                assert(s[k].name@ == s[s.len() - 1].name@);
                assert(false);
            }
        }
    }
}

/// Within the records of one tree walk, an ancestor path always precedes
/// its descendants.
proof fn lemma_scan_tree_order(t: Tree, at: Seq<Seq<u8>>, c: Classifier)
    requires
        wf(t),
    ensures
        forall|i: int, j: int|
            0 <= i < scan_tree(t, at, c).len() && 0 <= j < scan_tree(t, at, c).len()
                && path_strict_prefix(
                #[trigger] scan_tree(t, at, c)[i],
                #[trigger] scan_tree(t, at, c)[j],
            ) ==> i < j,
    decreases t,
{
    lemma_scan_level_shape(t.subdirs@, at, c);
    lemma_scan_subtrees_shape(t.subdirs@, at, c);
    lemma_scan_subtrees_order(t.subdirs@, at, c);
    let lpart = scan_level(t.subdirs@, at, c);
    let spart = scan_subtrees(t.subdirs@, at, c);
    assert forall|i: int, j: int|
        0 <= i < scan_tree(t, at, c).len() && 0 <= j < scan_tree(t, at, c).len()
            && path_strict_prefix(
            #[trigger] scan_tree(t, at, c)[i],
            #[trigger] scan_tree(t, at, c)[j],
        ) implies i < j by {
        let e1 = scan_tree(t, at, c)[i];
        let e2 = scan_tree(t, at, c)[j];
        if j < lpart.len() {
            // every record is at least one level below `at`, so nothing can
            // be a strict prefix of a record of this level
            assert(e2 == lpart[j]);
            if i < lpart.len() {
                assert(e1 == lpart[i]);
            } else {
                assert(e1 == spart[i - lpart.len()]);
            }
            assert(false);
        } else if i < lpart.len() {
        } else {
            assert(e1 == spart[i - lpart.len()]);
            assert(e2 == spart[j - lpart.len()]);
        }
    }
}

/// Scan order keeps ancestors first: in a well-formed tree, when one
/// recorded directory is a strict ancestor of another, the ancestor's
/// record precedes the descendant's.
pub proof fn lemma_scan_preorder(t: Tree, c: Classifier, i: int, j: int)
    requires
        wf(t),
        0 <= i < scan_tree(t, Seq::empty(), c).len(),
        0 <= j < scan_tree(t, Seq::empty(), c).len(),
        path_strict_prefix(
            scan_tree(t, Seq::empty(), c)[i],
            scan_tree(t, Seq::empty(), c)[j],
        ),
    ensures
        i < j,
{
    lemma_scan_tree_order(t, Seq::empty(), c);
}

} // verus!
