//! The deduplicator: walks a scan result in discovery order and keeps, for
//! each distinct fingerprint, only the first directory that bears it. Later
//! directories with an already-seen fingerprint are removed from the result
//! and reported for deletion. A directory whose fingerprint is unavailable
//! is always kept.

use vstd::prelude::*;

use crate::bytes::RelPath;
use crate::bytes::clone_path;
use crate::bytes::paths_view;
use crate::checksum::Checksum;
use crate::checksum::checksum_view;
use crate::checksum::fingerprint_of;
use crate::scan::Scan;
use crate::tree::Tree;

verus! {

/// The entries of `dirs` that survive deduplication, given the fingerprints
/// already `seen`: an entry survives when its fingerprint is unavailable or
/// not seen before it.
pub open spec fn dedup_keep(
    root: Tree,
    dirs: Seq<Seq<Seq<u8>>>,
    seen: Set<(Seq<u8>, Seq<u8>, Seq<u8>)>,
) -> Seq<Seq<Seq<u8>>>
    decreases dirs.len(),
{
    if dirs.len() == 0 {
        Seq::empty()
    } else {
        match fingerprint_of(root, dirs.first()) {
            None => seq![dirs.first()] + dedup_keep(root, dirs.drop_first(), seen),
            Some(fp) => if seen.contains(fp) {
                dedup_keep(root, dirs.drop_first(), seen)
            } else {
                seq![dirs.first()] + dedup_keep(root, dirs.drop_first(), seen.insert(fp))
            },
        }
    }
}

/// The entries of `dirs` that deduplication removes: those whose fingerprint
/// was seen on an earlier entry.
pub open spec fn dedup_drop(
    root: Tree,
    dirs: Seq<Seq<Seq<u8>>>,
    seen: Set<(Seq<u8>, Seq<u8>, Seq<u8>)>,
) -> Seq<Seq<Seq<u8>>>
    decreases dirs.len(),
{
    if dirs.len() == 0 {
        Seq::empty()
    } else {
        match fingerprint_of(root, dirs.first()) {
            None => dedup_drop(root, dirs.drop_first(), seen),
            Some(fp) => if seen.contains(fp) {
                seq![dirs.first()] + dedup_drop(root, dirs.drop_first(), seen)
            } else {
                dedup_drop(root, dirs.drop_first(), seen.insert(fp))
            },
        }
    }
}

/// Whether some entry of `seen` holds the same digests as `c`.
fn contains_checksum(seen: &Vec<Checksum>, c: &Checksum) -> (r: bool)
    ensures
        r == exists|k: int|
            0 <= k < seen@.len() && checksum_view(seen@[k]) == checksum_view(*c),
{
    let mut i: usize = 0;
    while i < seen.len()
        invariant
            i <= seen@.len(),
            forall|k: int| 0 <= k < i ==> checksum_view(seen@[k]) != checksum_view(*c),
        decreases seen@.len() - i,
    {
        if seen[i].same(c) {
            return true;
        }
        i = i + 1;
    }
    false
}

impl Scan {
    /// Removes from the scan every directory whose fingerprint equals that
    /// of an earlier entry, keeping the first-discovered directory of each
    /// distinct fingerprint, and returns the removed directories in order.
    /// Directories whose fingerprint is unavailable are kept untouched.
    pub fn erase_duplicates(&mut self, root: &Tree) -> (dups: Vec<RelPath>)
        ensures
            final(self).classifier == old(self).classifier,
            paths_view(final(self).dirs) == dedup_keep(
                *root,
                paths_view(old(self).dirs),
                Set::empty(),
            ),
            paths_view(dups) == dedup_drop(*root, paths_view(old(self).dirs), Set::empty()),
    {
        let ghost dirs0: Seq<Seq<Seq<u8>>> = paths_view(self.dirs);
        let mut kept: Vec<RelPath> = Vec::new();
        let mut dups: Vec<RelPath> = Vec::new();
        let mut seen: Vec<Checksum> = Vec::new();
        let ghost mut seen_set: Set<(Seq<u8>, Seq<u8>, Seq<u8>)> = Set::empty();
        let n = self.dirs.len();
        let mut i: usize = 0;
        proof {
            assert(dirs0.skip(0) =~= dirs0);
            assert(paths_view(kept) =~= Seq::<Seq<Seq<u8>>>::empty());
            assert(paths_view(kept) + dedup_keep(*root, dirs0, seen_set) =~= dedup_keep(
                *root,
                dirs0,
                seen_set,
            ));
            assert(paths_view(dups) + dedup_drop(*root, dirs0, seen_set) =~= dedup_drop(
                *root,
                dirs0,
                seen_set,
            ));
        }
        while i < n
            invariant
                n == self.dirs@.len(),
                i <= n,
                dirs0 == paths_view(self.dirs),
                *self == *old(self),
                dedup_keep(*root, dirs0, Set::empty()) == paths_view(kept) + dedup_keep(
                    *root,
                    dirs0.skip(i as int),
                    seen_set,
                ),
                dedup_drop(*root, dirs0, Set::empty()) == paths_view(dups) + dedup_drop(
                    *root,
                    dirs0.skip(i as int),
                    seen_set,
                ),
                forall|fp: (Seq<u8>, Seq<u8>, Seq<u8>)|
                    seen_set.contains(fp) <==> exists|k: int|
                        0 <= k < seen@.len() && checksum_view(#[trigger] seen@[k]) == fp,
            decreases n - i,
        {
            proof {
                assert(dirs0.skip(i as int).first() == dirs0[i as int]);
                assert(dirs0.skip(i as int).drop_first() =~= dirs0.skip(i + 1));
                assert(dirs0[i as int] == crate::bytes::path_view(self.dirs@[i as int]));
            }
            let entry = clone_path(&self.dirs[i]);
            let cs_opt = Checksum::from_dir(root, &self.dirs[i]);
            match cs_opt {
                None => {
                    let ghost before = paths_view(kept);
                    kept.push(entry);
                    proof {
                        assert(paths_view(kept) =~= before.push(dirs0[i as int]));
                        assert(before.push(dirs0[i as int]) + dedup_keep(
                            *root,
                            dirs0.skip(i + 1),
                            seen_set,
                        ) =~= before + (seq![dirs0[i as int]] + dedup_keep(
                            *root,
                            dirs0.skip(i + 1),
                            seen_set,
                        )));
                    }
                },
                Some(cs) => {
                    let dup = contains_checksum(&seen, &cs);
                    proof {
                        assert(dup == seen_set.contains(checksum_view(cs)));
                    }
                    if dup {
                        let ghost before = paths_view(dups);
                        dups.push(entry);
                        proof {
                            assert(paths_view(dups) =~= before.push(dirs0[i as int]));
                            assert(before.push(dirs0[i as int]) + dedup_drop(
                                *root,
                                dirs0.skip(i + 1),
                                seen_set,
                            ) =~= before + (seq![dirs0[i as int]] + dedup_drop(
                                *root,
                                dirs0.skip(i + 1),
                                seen_set,
                            )));
                        }
                    } else {
                        let ghost before = paths_view(kept);
                        let ghost fp = checksum_view(cs);
                        let ghost seen_before = seen@;
                        let ghost set_before = seen_set;
                        kept.push(entry);
                        seen.push(cs);
                        proof {
                            seen_set = seen_set.insert(fp);
                            assert(paths_view(kept) =~= before.push(dirs0[i as int]));
                            assert(before.push(dirs0[i as int]) + dedup_keep(
                                *root,
                                dirs0.skip(i + 1),
                                seen_set,
                            ) =~= before + (seq![dirs0[i as int]] + dedup_keep(
                                *root,
                                dirs0.skip(i + 1),
                                seen_set,
                            )));
                            assert(seen@ =~= seen_before.push(cs));
                            assert(checksum_view(seen@[seen@.len() - 1]) == fp);
                            assert forall|g: (Seq<u8>, Seq<u8>, Seq<u8>)|
                                seen_set.contains(g) implies exists|k: int|
                                0 <= k < seen@.len() && checksum_view(#[trigger] seen@[k])
                                    == g by {
                                if g == fp {
                                    assert(checksum_view(seen@[seen@.len() - 1]) == g);
                                } else {
                                    assert(set_before.contains(g));
                                    let k = choose|k: int|
                                        0 <= k < seen_before.len() && checksum_view(
                                            #[trigger] seen_before[k],
                                        ) == g;
                                    assert(checksum_view(seen@[k]) == g);
                                }
                            }
                            assert forall|g: (Seq<u8>, Seq<u8>, Seq<u8>)|
                                (exists|k: int|
                                    0 <= k < seen@.len() && checksum_view(#[trigger] seen@[k])
                                        == g) implies seen_set.contains(g) by {
                                let k = choose|k: int|
                                    0 <= k < seen@.len() && checksum_view(#[trigger] seen@[k])
                                        == g;
                                if k < seen@.len() - 1 {
                                    assert(checksum_view(seen_before[k]) == g);
                                    assert(set_before.contains(g));
                                } else {
                                    assert(g == fp);
                                }
                            }
                        }
                    }
                },
            }
            i = i + 1;
        }
        proof {
            assert(dirs0.skip(n as int).len() == 0);
            assert(paths_view(kept) + Seq::<Seq<Seq<u8>>>::empty() =~= paths_view(kept));
            assert(paths_view(dups) + Seq::<Seq<Seq<u8>>>::empty() =~= paths_view(dups));
        }
        self.dirs = kept;
        dups
    }
}


/// Whether the entry at `i` survives deduplication, given the fingerprints
/// already `seen`: its fingerprint is unavailable, or was neither seen
/// before the run nor borne by an earlier entry.
pub open spec fn survives(
    root: Tree,
    dirs: Seq<Seq<Seq<u8>>>,
    seen: Set<(Seq<u8>, Seq<u8>, Seq<u8>)>,
    i: int,
) -> bool {
    match fingerprint_of(root, dirs[i]) {
        None => true,
        Some(fp) => !seen.contains(fp) && forall|j: int|
            0 <= j < i ==> fingerprint_of(root, dirs[j]) != Some(fp),
    }
}

/// Everything deduplication keeps or drops is an entry of its input.
pub proof fn lemma_dedup_subset(
    root: Tree,
    dirs: Seq<Seq<Seq<u8>>>,
    seen: Set<(Seq<u8>, Seq<u8>, Seq<u8>)>,
)
    ensures
        forall|x: Seq<Seq<u8>>| dedup_keep(root, dirs, seen).contains(x) ==> dirs.contains(x),
        forall|x: Seq<Seq<u8>>| dedup_drop(root, dirs, seen).contains(x) ==> dirs.contains(x),
    decreases dirs.len(),
{
    if dirs.len() == 0 {
    } else {
        let rest = dirs.drop_first();
        match fingerprint_of(root, dirs.first()) {
            None => {
                lemma_dedup_subset(root, rest, seen);
            },
            Some(fp) => {
                if seen.contains(fp) {
                    lemma_dedup_subset(root, rest, seen);
                } else {
                    lemma_dedup_subset(root, rest, seen.insert(fp));
                }
            },
        }
        assert forall|x: Seq<Seq<u8>>|
            dedup_keep(root, dirs, seen).contains(x) implies dirs.contains(x) by {
            if x == dirs.first() {
                assert(dirs[0] == x);
            } else {
                assert(rest.contains(x));
                let k = choose|k: int| 0 <= k < rest.len() && rest[k] == x;
                assert(dirs[k + 1] == x);
            }
        }
        assert forall|x: Seq<Seq<u8>>|
            dedup_drop(root, dirs, seen).contains(x) implies dirs.contains(x) by {
            if x == dirs.first() {
                assert(dirs[0] == x);
            } else {
                assert(rest.contains(x));
                let k = choose|k: int| 0 <= k < rest.len() && rest[k] == x;
                assert(dirs[k + 1] == x);
            }
        }
    }
}

/// Deduplication is idempotent: running it again over its own output, with
/// the same starting fingerprint set, changes nothing.
pub proof fn lemma_dedup_idempotent(
    root: Tree,
    dirs: Seq<Seq<Seq<u8>>>,
    seen: Set<(Seq<u8>, Seq<u8>, Seq<u8>)>,
)
    ensures
        dedup_keep(root, dedup_keep(root, dirs, seen), seen) == dedup_keep(root, dirs, seen),
    decreases dirs.len(),
{
    if dirs.len() == 0 {
        assert(dedup_keep(root, dedup_keep(root, dirs, seen), seen) =~= dedup_keep(
            root,
            dirs,
            seen,
        ));
    } else {
        let rest = dirs.drop_first();
        match fingerprint_of(root, dirs.first()) {
            None => {
                lemma_dedup_idempotent(root, rest, seen);
                let inner = seq![dirs.first()] + dedup_keep(root, rest, seen);
                assert(inner.first() == dirs.first());
                assert(inner.drop_first() =~= dedup_keep(root, rest, seen));
            },
            Some(fp) => {
                if seen.contains(fp) {
                    lemma_dedup_idempotent(root, rest, seen);
                } else {
                    lemma_dedup_idempotent(root, rest, seen.insert(fp));
                    let inner = seq![dirs.first()] + dedup_keep(root, rest, seen.insert(fp));
                    assert(inner.first() == dirs.first());
                    assert(inner.drop_first() =~= dedup_keep(root, rest, seen.insert(fp)));
                }
            },
        }
    }
}

/// The surviving entries bear pairwise distinct fingerprints, and none
/// bears a fingerprint that was already in the starting set.
pub proof fn lemma_dedup_unique_fingerprints(
    root: Tree,
    dirs: Seq<Seq<Seq<u8>>>,
    seen: Set<(Seq<u8>, Seq<u8>, Seq<u8>)>,
)
    ensures
        forall|a: int|
            0 <= a < dedup_keep(root, dirs, seen).len() ==> match fingerprint_of(
                root,
                #[trigger] dedup_keep(root, dirs, seen)[a],
            ) {
                Some(f) => !seen.contains(f),
                None => true,
            },
        forall|a: int, b: int|
            0 <= a < b < dedup_keep(root, dirs, seen).len() && fingerprint_of(
                root,
                dedup_keep(root, dirs, seen)[a],
            ) is Some ==> fingerprint_of(root, dedup_keep(root, dirs, seen)[a]) != fingerprint_of(
                root,
                dedup_keep(root, dirs, seen)[b],
            ),
    decreases dirs.len(),
{
    if dirs.len() == 0 {
    } else {
        let rest = dirs.drop_first();
        let r = dedup_keep(root, dirs, seen);
        match fingerprint_of(root, dirs.first()) {
            None => {
                lemma_dedup_unique_fingerprints(root, rest, seen);
                let rr = dedup_keep(root, rest, seen);
                assert(forall|a: int| 1 <= a < r.len() ==> r[a] == rr[a - 1]);
            },
            Some(fp) => {
                if seen.contains(fp) {
                    lemma_dedup_unique_fingerprints(root, rest, seen);
                } else {
                    lemma_dedup_unique_fingerprints(root, rest, seen.insert(fp));
                    let rr = dedup_keep(root, rest, seen.insert(fp));
                    assert(forall|a: int| 1 <= a < r.len() ==> r[a] == rr[a - 1]);
                    assert forall|b: int|
                        1 <= b < r.len() implies fingerprint_of(root, r[b]) != Some(fp) by {
                        match fingerprint_of(root, rr[b - 1]) {
                            Some(g) => {
                                assert(!seen.insert(fp).contains(g));
                            },
                            None => {},
                        }
                    }
                }
            },
        }
    }
}

/// Every fingerprint borne by some entry, and not already in the starting
/// set, is still borne by some surviving entry.
pub proof fn lemma_dedup_content_kept(
    root: Tree,
    dirs: Seq<Seq<Seq<u8>>>,
    seen: Set<(Seq<u8>, Seq<u8>, Seq<u8>)>,
    i: int,
)
    requires
        0 <= i < dirs.len(),
        fingerprint_of(root, dirs[i]) is Some,
        !seen.contains(fingerprint_of(root, dirs[i])->0),
    ensures
        exists|a: int|
            0 <= a < dedup_keep(root, dirs, seen).len() && fingerprint_of(
                root,
                #[trigger] dedup_keep(root, dirs, seen)[a],
            ) == fingerprint_of(root, dirs[i]),
    decreases dirs.len(),
{
    let rest = dirs.drop_first();
    let r = dedup_keep(root, dirs, seen);
    let fpi = fingerprint_of(root, dirs[i])->0;
    match fingerprint_of(root, dirs.first()) {
        None => {
            assert(i > 0);
            assert(rest[i - 1] == dirs[i]);
            lemma_dedup_content_kept(root, rest, seen, i - 1);
            let rr = dedup_keep(root, rest, seen);
            let a = choose|a: int|
                0 <= a < rr.len() && fingerprint_of(root, #[trigger] rr[a]) == fingerprint_of(
                    root,
                    rest[i - 1],
                );
            assert(r[a + 1] == rr[a]);
        },
        Some(fp) => {
            if seen.contains(fp) {
                assert(i > 0);
                assert(rest[i - 1] == dirs[i]);
                lemma_dedup_content_kept(root, rest, seen, i - 1);
            } else {
                if fpi == fp {
                    assert(r[0] == dirs.first());
                    assert(fingerprint_of(root, r[0]) == Some(fpi));
                } else {
                    assert(i > 0);
                    assert(rest[i - 1] == dirs[i]);
                    lemma_dedup_content_kept(root, rest, seen.insert(fp), i - 1);
                    let rr = dedup_keep(root, rest, seen.insert(fp));
                    let a = choose|a: int|
                        0 <= a < rr.len() && fingerprint_of(root, #[trigger] rr[a])
                            == fingerprint_of(root, rest[i - 1]);
                    assert(r[a + 1] == rr[a]);
                }
            }
        },
    }
}

/// First-seen-wins: with pairwise distinct entries, an entry survives
/// deduplication exactly when its fingerprint is unavailable or it is the
/// first entry bearing its fingerprint; otherwise it is dropped.
pub proof fn lemma_dedup_survivors(
    root: Tree,
    dirs: Seq<Seq<Seq<u8>>>,
    seen: Set<(Seq<u8>, Seq<u8>, Seq<u8>)>,
    i: int,
)
    requires
        0 <= i < dirs.len(),
        forall|a: int, b: int| 0 <= a < b < dirs.len() ==> dirs[a] != dirs[b],
    ensures
        dedup_keep(root, dirs, seen).contains(dirs[i]) == survives(root, dirs, seen, i),
        dedup_drop(root, dirs, seen).contains(dirs[i]) == !survives(root, dirs, seen, i),
    decreases dirs.len(),
{
    let rest = dirs.drop_first();
    let d0 = dirs.first();
    assert(forall|a: int, b: int| 0 <= a < b < rest.len() ==> rest[a] != rest[b]) by {
        assert(forall|a: int| 0 <= a < rest.len() ==> rest[a] == dirs[a + 1]);
    }
    lemma_dedup_subset(root, rest, seen);
    match fingerprint_of(root, d0) {
        None => {
            let r = dedup_keep(root, dirs, seen);
            let rd = dedup_drop(root, dirs, seen);
            if i == 0 {
                assert(r[0] == d0);
                assert(r.contains(d0));
                assert(!rest.contains(d0)) by {
                    if rest.contains(d0) {
                        let k = choose|k: int| 0 <= k < rest.len() && rest[k] == d0;
                        assert(dirs[k + 1] == dirs[0]);
                    }
                }
                assert(!rd.contains(d0));
            } else {
                assert(rest[i - 1] == dirs[i]);
                lemma_dedup_survivors(root, rest, seen, i - 1);
                assert(survives(root, rest, seen, i - 1) == survives(root, dirs, seen, i)) by {
                    match fingerprint_of(root, dirs[i]) {
                        None => {},
                        Some(g) => {
                            assert(forall|j: int|
                                1 <= j < i ==> fingerprint_of(root, dirs[j]) == fingerprint_of(
                                    root,
                                    rest[j - 1],
                                ));
                        },
                    }
                }
                assert(dirs[i] != d0);
                assert(r.contains(dirs[i]) == dedup_keep(root, rest, seen).contains(dirs[i])) by {
                    if dedup_keep(root, rest, seen).contains(dirs[i]) {
                        let k = choose|k: int|
                            0 <= k < dedup_keep(root, rest, seen).len() && dedup_keep(
                                root,
                                rest,
                                seen,
                            )[k] == dirs[i];
                        assert(r[k + 1] == dirs[i]);
                    }
                    if r.contains(dirs[i]) {
                        let k = choose|k: int| 0 <= k < r.len() && r[k] == dirs[i];
                        assert(k > 0);
                        assert(dedup_keep(root, rest, seen)[k - 1] == dirs[i]);
                    }
                }
            }
        },
        Some(fp) => {
            if seen.contains(fp) {
                let r = dedup_keep(root, dirs, seen);
                let rd = dedup_drop(root, dirs, seen);
                if i == 0 {
                    assert(!survives(root, dirs, seen, 0));
                    assert(!rest.contains(d0)) by {
                        if rest.contains(d0) {
                            let k = choose|k: int| 0 <= k < rest.len() && rest[k] == d0;
                            assert(dirs[k + 1] == dirs[0]);
                        }
                    }
                    assert(!r.contains(d0));
                    assert(rd[0] == d0);
                    assert(rd.contains(d0));
                } else {
                    assert(rest[i - 1] == dirs[i]);
                    lemma_dedup_survivors(root, rest, seen, i - 1);
                    assert(survives(root, rest, seen, i - 1) == survives(root, dirs, seen, i)) by {
                        match fingerprint_of(root, dirs[i]) {
                            None => {},
                            Some(g) => {
                                assert(forall|j: int|
                                    1 <= j < i ==> fingerprint_of(root, dirs[j]) == fingerprint_of(
                                        root,
                                        rest[j - 1],
                                    ));
                                if !seen.contains(g) {
                                    assert(g != fp);
                                }
                            },
                        }
                    }
                    assert(dirs[i] != d0);
                    assert(rd.contains(dirs[i]) == dedup_drop(root, rest, seen).contains(dirs[i]))
                        by {
                        if dedup_drop(root, rest, seen).contains(dirs[i]) {
                            let k = choose|k: int|
                                0 <= k < dedup_drop(root, rest, seen).len() && dedup_drop(
                                    root,
                                    rest,
                                    seen,
                                )[k] == dirs[i];
                            assert(rd[k + 1] == dirs[i]);
                        }
                        if rd.contains(dirs[i]) {
                            let k = choose|k: int| 0 <= k < rd.len() && rd[k] == dirs[i];
                            assert(k > 0);
                            assert(dedup_drop(root, rest, seen)[k - 1] == dirs[i]);
                        }
                    }
                }
            } else {
                let seen2 = seen.insert(fp);
                lemma_dedup_subset(root, rest, seen2);
                let r = dedup_keep(root, dirs, seen);
                let rd = dedup_drop(root, dirs, seen);
                if i == 0 {
                    assert(survives(root, dirs, seen, 0));
                    assert(r[0] == d0);
                    assert(r.contains(d0));
                    assert(!rest.contains(d0)) by {
                        if rest.contains(d0) {
                            let k = choose|k: int| 0 <= k < rest.len() && rest[k] == d0;
                            assert(dirs[k + 1] == dirs[0]);
                        }
                    }
                    assert(!rd.contains(d0));
                } else {
                    assert(rest[i - 1] == dirs[i]);
                    lemma_dedup_survivors(root, rest, seen2, i - 1);
                    assert(survives(root, rest, seen2, i - 1) == survives(root, dirs, seen, i)) by {
                        match fingerprint_of(root, dirs[i]) {
                            None => {},
                            Some(g) => {
                                assert(forall|j: int|
                                    1 <= j < i ==> fingerprint_of(root, dirs[j]) == fingerprint_of(
                                        root,
                                        rest[j - 1],
                                    ));
                                assert(fingerprint_of(root, dirs[0]) == Some(fp));
                                assert(!seen2.contains(g) <==> !seen.contains(g) && g != fp);
                            },
                        }
                    }
                    assert(dirs[i] != d0);
                    assert(r.contains(dirs[i]) == dedup_keep(root, rest, seen2).contains(dirs[i]))
                        by {
                        if dedup_keep(root, rest, seen2).contains(dirs[i]) {
                            let k = choose|k: int|
                                0 <= k < dedup_keep(root, rest, seen2).len() && dedup_keep(
                                    root,
                                    rest,
                                    seen2,
                                )[k] == dirs[i];
                            assert(r[k + 1] == dirs[i]);
                        }
                        if r.contains(dirs[i]) {
                            let k = choose|k: int| 0 <= k < r.len() && r[k] == dirs[i];
                            assert(k > 0);
                            assert(dedup_keep(root, rest, seen2)[k - 1] == dirs[i]);
                        }
                    }
                }
            }
        },
    }
}

} // verus!
