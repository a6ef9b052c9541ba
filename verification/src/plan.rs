//! The destination planner: for each surviving source directory it picks a
//! destination name in the target directory that collides neither with a
//! pre-existing target entry nor with a name already claimed in this run.
//! Names either preserve the source's relative path (components joined with
//! underscores, the configured prefix stripped once from the leaf and
//! re-applied at the front, a three-digit attempt suffix on collision) or
//! fall back to a six-digit sequence number.

use vstd::prelude::*;

use crate::bytes::Name;
use crate::bytes::RelPath;
use crate::bytes::append_bytes;
use crate::bytes::clone_name;
use crate::bytes::clone_path;
use crate::bytes::contains_name;
use crate::bytes::names_view;
use crate::bytes::path_view;
use crate::bytes::paths_view;
use crate::bytes::stripped;
use crate::bytes::stripped_spec;
use crate::scan::Scan;

verus! {

/// How many candidate names may be tried for one source directory.
pub open spec fn max_attempts(keep: bool) -> nat {
    if keep {
        1000
    } else {
        1000000
    }
}

/// The low `width` decimal digits of `v`, zero-padded, most significant
/// first.
pub open spec fn dec_digits(v: nat, width: nat) -> Seq<u8>
    decreases width,
{
    if width == 0 {
        Seq::empty()
    } else {
        dec_digits(v / 10, (width - 1) as nat).push((48 + v % 10) as u8)
    }
}

/// Path components each followed by an underscore.
pub open spec fn joined(comps: Seq<Seq<u8>>) -> Seq<u8>
    decreases comps.len(),
{
    if comps.len() == 0 {
        Seq::empty()
    } else {
        joined(comps.drop_last()) + comps.last() + seq![95u8]
    }
}

/// A path-preserving candidate name: prefix, joined directory components,
/// the stripped leaf, and, from the second attempt on, an underscore and a
/// three-digit attempt counter.
pub open spec fn keep_candidate(
    prefix: Seq<u8>,
    comps: Seq<Seq<u8>>,
    leaf: Seq<u8>,
    attempt: nat,
) -> Seq<u8> {
    let base = prefix + joined(comps) + leaf;
    if attempt == 0 {
        base
    } else {
        base + seq![95u8] + dec_digits(attempt, 3)
    }
}

/// A sequential candidate name: prefix and a six-digit sequence number.
pub open spec fn seq_candidate(prefix: Seq<u8>, attempt: nat) -> Seq<u8> {
    prefix + dec_digits(attempt, 6)
}

/// The candidate name tried for source `rel` at the given attempt.
pub open spec fn candidate_name(prefix: Seq<u8>, rel: Seq<Seq<u8>>, keep: bool, attempt: nat) -> Seq<
    u8,
> {
    if keep {
        keep_candidate(prefix, rel.drop_last(), stripped_spec(rel.last(), prefix), attempt)
    } else {
        seq_candidate(prefix, attempt)
    }
}


/// Path-preserving name construction: the first candidate for a source
/// joins its directory components with underscores, strips the prefix once
/// from the leaf, and re-applies the prefix once at the front.
pub proof fn lemma_first_candidate_shape(prefix: Seq<u8>, rel: Seq<Seq<u8>>)
    requires
        rel.len() > 0,
    ensures
        candidate_name(prefix, rel, true, 0) == prefix + joined(rel.drop_last()) + stripped_spec(
            rel.last(),
            prefix,
        ),
{
}

/// The first candidate name, from `attempt` on, that is neither a
/// pre-existing target entry nor claimed in this run; `None` when the
/// attempt budget runs out first.
pub open spec fn first_free(
    existing: Seq<Seq<u8>>,
    taken: Set<Seq<u8>>,
    prefix: Seq<u8>,
    rel: Seq<Seq<u8>>,
    keep: bool,
    attempt: nat,
) -> Option<Seq<u8>>
    decreases max_attempts(keep) - attempt,
{
    if attempt >= max_attempts(keep) {
        None
    } else {
        let cand = candidate_name(prefix, rel, keep, attempt);
        if taken.contains(cand) || existing.contains(cand) {
            first_free(existing, taken, prefix, rel, keep, (attempt + 1) as nat)
        } else {
            Some(cand)
        }
    }
}

/// The destination planned for one source directory: none for a
/// path-preserving source with no components below the root, otherwise the
/// first free candidate within the attempt budget.
pub open spec fn plan_entry(
    existing: Seq<Seq<u8>>,
    taken: Set<Seq<u8>>,
    prefix: Seq<u8>,
    rel: Seq<Seq<u8>>,
    keep: bool,
) -> Option<Seq<u8>> {
    if keep && rel.len() == 0 {
        None
    } else {
        first_free(existing, taken, prefix, rel, keep, 0)
    }
}

/// The destinations planned for `dirs` in order, each claiming its name
/// before the next entry is planned.
pub open spec fn plan_outputs(
    existing: Seq<Seq<u8>>,
    taken: Set<Seq<u8>>,
    prefix: Seq<u8>,
    dirs: Seq<Seq<Seq<u8>>>,
    keep: bool,
) -> Seq<Option<Seq<u8>>>
    decreases dirs.len(),
{
    if dirs.len() == 0 {
        Seq::empty()
    } else {
        let e0 = plan_entry(existing, taken, prefix, dirs.first(), keep);
        let taken2 = match e0 {
            Some(nm) => taken.insert(nm),
            None => taken,
        };
        seq![e0] + plan_outputs(existing, taken2, prefix, dirs.drop_first(), keep)
    }
}

/// The mathematical value of an optional destination name.
pub open spec fn opt_name_view(o: Option<Name>) -> Option<Seq<u8>> {
    match o {
        Some(n) => Some(n@),
        None => None,
    }
}

/// The mathematical value of a list of optional destination names.
pub open spec fn outputs_view(v: Vec<Option<Name>>) -> Seq<Option<Seq<u8>>> {
    Seq::new(v@.len(), |i: int| opt_name_view(v@[i]))
}

/// The names of the entries already inside the target directory, or empty
/// when the target is not a directory.
pub open spec fn target_names(target: Option<Vec<Name>>) -> Seq<Seq<u8>> {
    match target {
        Some(t) => names_view(t),
        None => Seq::empty(),
    }
}

/// A source path split for path-preserving naming: the directory components
/// below the scan root, and the leaf with the prefix stripped once.
pub struct OriginalFileName {
    pub dir_components: Vec<Name>,
    pub file_name: Name,
}

impl OriginalFileName {
    /// Splits a source path relative to the scan root; `None` when the path
    /// has no components below the root.
    pub fn new(dir_prefix: &Vec<u8>, dir: &RelPath) -> (r: Option<OriginalFileName>)
        ensures
            match r {
                None => dir@.len() == 0,
                Some(o) => dir@.len() > 0 && names_view(o.dir_components) == path_view(
                    *dir,
                ).drop_last() && o.file_name@ == stripped_spec(path_view(*dir).last(), dir_prefix@),
            },
    {
        if dir.len() == 0 {
            return None;
        }
        let k = dir.len() - 1;
        let mut dir_components: Vec<Name> = Vec::new();
        let mut i: usize = 0;
        while i < k
            invariant
                k < dir@.len(),
                i <= k,
                dir_components@.len() == i,
                forall|j: int| 0 <= j < i ==> dir_components@[j]@ == dir@[j]@,
            decreases k - i,
        {
            dir_components.push(clone_name(&dir[i]));
            i = i + 1;
        }
        let file_name = stripped(&dir[k], dir_prefix);
        proof {
            assert(names_view(dir_components) =~= path_view(*dir).drop_last());
        }
        Some(OriginalFileName { dir_components, file_name })
    }
}

/// Appends the low `width` decimal digits of `v`, zero-padded.
fn push_digits(out: &mut Vec<u8>, v: u32, width: u32)
    ensures
        final(out)@ == old(out)@ + dec_digits(v as nat, width as nat),
    decreases width,
{
    if width == 0 {
        proof {
            assert(old(out)@ + Seq::<u8>::empty() =~= old(out)@);
        }
        return ;
    }
    push_digits(out, v / 10, width - 1);
    out.push((48 + v % 10) as u8);
    proof {
        assert(out@ =~= old(out)@ + dec_digits(v as nat, width as nat));
    }
}

/// The planned moves: each scanned source directory beside its destination
/// name in the target directory, or `None` where no free name was found.
pub struct Move {
    pub dirs: Vec<RelPath>,
    pub output: Vec<Option<Name>>,
}

/// The planner fails only when the target is not a directory.
#[derive(Debug)]
pub enum MoveError {
    TargetNotADirectory,
}

/// Builds one candidate destination name.
fn rename(dir_prefix: &Vec<u8>, attempt: u32, original: Option<&OriginalFileName>) -> (r: Vec<u8>)
    ensures
        match original {
            Some(o) => r@ == keep_candidate(
                dir_prefix@,
                names_view(o.dir_components),
                o.file_name@,
                attempt as nat,
            ),
            None => r@ == seq_candidate(dir_prefix@, attempt as nat),
        },
{
    let mut r = clone_name(dir_prefix);
    match original {
        Some(o) => {
            let k = o.dir_components.len();
            let mut i: usize = 0;
            proof {
                assert(joined(names_view(o.dir_components).take(0)) =~= Seq::<u8>::empty());
                assert(dir_prefix@ + Seq::<u8>::empty() =~= dir_prefix@);
            }
            while i < k
                invariant
                    k == o.dir_components@.len(),
                    i <= k,
                    r@ == dir_prefix@ + joined(names_view(o.dir_components).take(i as int)),
                decreases k - i,
            {
                proof {
                    assert(names_view(o.dir_components).take(i + 1).drop_last() =~= names_view(
                        o.dir_components,
                    ).take(i as int));
                    assert(names_view(o.dir_components).take(i + 1).last() == o.dir_components@[i as int]@);
                }
                append_bytes(&mut r, &o.dir_components[i]);
                r.push(95);
                proof {
                    assert(r@ =~= dir_prefix@ + joined(names_view(o.dir_components).take(i + 1)));
                }
                i = i + 1;
            }
            proof {
                assert(names_view(o.dir_components).take(k as int) =~= names_view(
                    o.dir_components,
                ));
            }
            append_bytes(&mut r, &o.file_name);
            proof {
                assert(r@ =~= dir_prefix@ + joined(names_view(o.dir_components))
                    + o.file_name@);
            }
            if attempt > 0 {
                r.push(95);
                push_digits(&mut r, attempt, 3);
                proof {
                    assert(r@ =~= dir_prefix@ + joined(names_view(o.dir_components))
                        + o.file_name@ + seq![95u8] + dec_digits(attempt as nat, 3));
                }
            }
        },
        None => {
            push_digits(&mut r, attempt, 6);
        },
    }
    r
}

impl Move {
    /// A plan holds one destination entry per source directory.
    pub open spec fn wf(self) -> bool {
        self.output@.len() == self.dirs@.len()
    }

    /// Plans a destination for every directory of `scan`, against the names
    /// already inside the target directory. Fails exactly when the target is
    /// not a directory (`target` is `None`). No two planned destinations
    /// coincide, and none coincides with a pre-existing target entry.
    pub fn new(
        scan: &Scan,
        target: &Option<Vec<Name>>,
        dir_prefix: &Vec<u8>,
        keep_original_path: bool,
    ) -> (r: Result<Move, MoveError>)
        ensures
            match r {
                Err(e) => (*target) is None && e == MoveError::TargetNotADirectory,
                Ok(m) => {
                    &&& (*target) is Some
                    &&& m.wf()
                    &&& paths_view(m.dirs) == paths_view(scan.dirs)
                    &&& outputs_view(m.output) == plan_outputs(
                        target_names(*target),
                        Set::empty(),
                        dir_prefix@,
                        paths_view(scan.dirs),
                        keep_original_path,
                    )
                    &&& forall|a: int, b: int|
                        0 <= a < b < m.output@.len() && outputs_view(m.output)[a] is Some
                            && outputs_view(m.output)[b] is Some ==> outputs_view(m.output)[a]
                            != outputs_view(m.output)[b]
                    &&& forall|a: int|
                        0 <= a < m.output@.len() && outputs_view(m.output)[a] is Some
                            ==> !target_names(*target).contains(outputs_view(m.output)[a]->0)
                },
            },
    {
        let tgt = match target {
            None => {
                return Err(MoveError::TargetNotADirectory);
            },
            Some(t) => t,
        };
        let ghost ex: Seq<Seq<u8>> = names_view(*tgt);
        let ghost dirsv: Seq<Seq<Seq<u8>>> = paths_view(scan.dirs);
        let ghost pfx: Seq<u8> = dir_prefix@;
        let keep = keep_original_path;
        let mut dirs: Vec<RelPath> = Vec::new();
        let mut output: Vec<Option<Name>> = Vec::new();
        let mut claimed: Vec<Name> = Vec::new();
        let ghost mut taken: Set<Seq<u8>> = Set::empty();
        let n = scan.dirs.len();
        let mut idx: usize = 0;
        proof {
            assert(dirsv.skip(0) =~= dirsv);
            assert(outputs_view(output) =~= Seq::<Option<Seq<u8>>>::empty());
            assert(outputs_view(output) + plan_outputs(ex, taken, pfx, dirsv, keep) =~= plan_outputs(
                ex,
                taken,
                pfx,
                dirsv,
                keep,
            ));
        }
        while idx < n
            invariant
                n == scan.dirs@.len(),
                idx <= n,
                ex == names_view(*tgt),
                dirsv == paths_view(scan.dirs),
                pfx == dir_prefix@,
                keep == keep_original_path,
                dirs@.len() == idx,
                output@.len() == idx,
                forall|k: int| 0 <= k < idx ==> path_view(dirs@[k]) == dirsv[k],
                plan_outputs(ex, Set::empty(), pfx, dirsv, keep) == outputs_view(output)
                    + plan_outputs(ex, taken, pfx, dirsv.skip(idx as int), keep),
                forall|nm: Seq<u8>| taken.contains(nm) <==> names_view(claimed).contains(nm),
                forall|nm: Seq<u8>|
                    taken.contains(nm) <==> exists|k: int|
                        0 <= k < idx && outputs_view(output)[k] == Some(nm),
                forall|a: int, b: int|
                    0 <= a < b < idx && outputs_view(output)[a] is Some && outputs_view(
                        output,
                    )[b] is Some ==> outputs_view(output)[a] != outputs_view(output)[b],
                forall|a: int|
                    0 <= a < idx && outputs_view(output)[a] is Some ==> !ex.contains(
                        outputs_view(output)[a]->0,
                    ),
            decreases n - idx,
        {
            proof {
                assert(dirsv.skip(idx as int).first() == dirsv[idx as int]);
                assert(dirsv.skip(idx as int).drop_first() =~= dirsv.skip(idx + 1));
                assert(dirsv[idx as int] == path_view(scan.dirs@[idx as int]));
            }
            let d = &scan.dirs[idx];
            let mut chosen: Option<Name> = None;
            if keep && d.len() == 0 {
                proof {
                    assert(plan_entry(ex, taken, pfx, dirsv[idx as int], keep) is None);
                }
            } else {
                let ofn: Option<OriginalFileName> = if keep {
                    OriginalFileName::new(dir_prefix, d)
                } else {
                    None
                };
                let max: u32 = if keep {
                    1000
                } else {
                    1000000
                };
                proof {
                    assert(max as nat == max_attempts(keep));
                }
                let mut attempt: u32 = 0;
                let mut found: Option<Name> = None;
                while found.is_none() && attempt < max
                    invariant
                        max as nat == max_attempts(keep),
                        attempt <= max,
                        ex == names_view(*tgt),
                        pfx == dir_prefix@,
                        forall|nm: Seq<u8>| taken.contains(nm) <==> names_view(
                            claimed,
                        ).contains(nm),
                        keep ==> dirsv[idx as int].len() > 0,
                        0 <= idx < dirsv.len(),
                        dirsv[idx as int] == path_view(scan.dirs@[idx as int]),
                        match ofn {
                            Some(o) => keep && names_view(o.dir_components) == dirsv[
                                idx as int
                            ].drop_last() && o.file_name@ == stripped_spec(
                                dirsv[idx as int].last(),
                                pfx,
                            ),
                            None => !keep,
                        },
                        found is None ==> first_free(ex, taken, pfx, dirsv[idx as int], keep, 0)
                            == first_free(
                            ex,
                            taken,
                            pfx,
                            dirsv[idx as int],
                            keep,
                            attempt as nat,
                        ),
                        match found {
                            Some(nm) => first_free(ex, taken, pfx, dirsv[idx as int], keep, 0)
                                == Some(nm@) && !taken.contains(nm@) && !ex.contains(nm@),
                            None => true,
                        },
                    decreases (if found is None {
                        1int
                    } else {
                        0int
                    }), max - attempt,
                {
                    let cand = match &ofn {
                        Some(o) => rename(dir_prefix, attempt, Some(o)),
                        None => rename(dir_prefix, attempt, None),
                    };
                    proof {
                        assert(cand@ == candidate_name(pfx, dirsv[idx as int], keep, attempt as nat));
                    }
                    let in_claimed = contains_name(&claimed, &cand);
                    let in_target = contains_name(tgt, &cand);
                    if !in_claimed && !in_target {
                        proof {
                            assert(first_free(ex, taken, pfx, dirsv[idx as int], keep, attempt as nat)
                                == Some(cand@));
                        }
                        found = Some(cand);
                    } else {
                        proof {
                            assert(first_free(ex, taken, pfx, dirsv[idx as int], keep, attempt as nat)
                                == first_free(
                                ex,
                                taken,
                                pfx,
                                dirsv[idx as int],
                                keep,
                                (attempt + 1) as nat,
                            ));
                        }
                        attempt = attempt + 1;
                    }
                }
                proof {
                    if found is None {
                        assert(attempt == max);
                        assert(first_free(ex, taken, pfx, dirsv[idx as int], keep, max as nat)
                            is None);
                    }
                    assert(plan_entry(ex, taken, pfx, dirsv[idx as int], keep) == opt_name_view(
                        found,
                    ));
                }
                chosen = found;
            }
            let ghost e0 = plan_entry(ex, taken, pfx, dirsv[idx as int], keep);
            proof {
                assert(e0 == opt_name_view(chosen));
            }
            let ghost out_before = outputs_view(output);
            let ghost taken_before = taken;
            let ghost claimed_before = names_view(claimed);
            match chosen {
                Some(nm) => {
                    claimed.push(clone_name(&nm));
                    output.push(Some(nm));
                    proof {
                        taken = taken.insert(e0->0);
                        assert(names_view(claimed) =~= claimed_before.push(e0->0));
                        assert(outputs_view(output) =~= out_before.push(e0));
                        assert forall|g: Seq<u8>| taken.contains(g) implies names_view(
                            claimed,
                        ).contains(g) by {
                            if g == e0->0 {
                                assert(names_view(claimed)[claimed@.len() - 1] == g);
                            } else {
                                assert(taken_before.contains(g));
                                let k = choose|k: int|
                                    0 <= k < claimed_before.len() && claimed_before[k] == g;
                                assert(names_view(claimed)[k] == g);
                            }
                        }
                        assert forall|g: Seq<u8>| names_view(claimed).contains(g) implies taken
                            .contains(g) by {
                            let k = choose|k: int|
                                0 <= k < names_view(claimed).len() && names_view(claimed)[k] == g;
                            if k < claimed_before.len() {
                                assert(claimed_before[k] == g);
                                assert(claimed_before.contains(g));
                            } else {
                                assert(g == e0->0);
                            }
                        }
                        assert forall|g: Seq<u8>| taken.contains(g) implies exists|k: int|
                            0 <= k < idx + 1 && outputs_view(output)[k] == Some(g) by {
                            if g == e0->0 {
                                assert(outputs_view(output)[idx as int] == Some(g));
                            } else {
                                let k = choose|k: int|
                                    0 <= k < idx && out_before[k] == Some(g);
                                assert(outputs_view(output)[k] == Some(g));
                            }
                        }
                        assert forall|g: Seq<u8>|
                            (exists|k: int| 0 <= k < idx + 1 && outputs_view(output)[k] == Some(g))
                            implies taken.contains(g) by {
                            let k = choose|k: int|
                                0 <= k < idx + 1 && outputs_view(output)[k] == Some(g);
                            if k < idx {
                                assert(out_before[k] == Some(g));
                                assert(taken_before.contains(g));
                            } else {
                                assert(g == e0->0);
                            }
                        }
                    }
                },
                None => {
                    output.push(None);
                    proof {
                        assert(outputs_view(output) =~= out_before.push(None));
                        assert forall|g: Seq<u8>| taken.contains(g) implies exists|k: int|
                            0 <= k < idx + 1 && outputs_view(output)[k] == Some(g) by {
                            let k = choose|k: int|
                                0 <= k < idx && out_before[k] == Some(g);
                            assert(outputs_view(output)[k] == Some(g));
                        }
                        assert forall|g: Seq<u8>|
                            (exists|k: int| 0 <= k < idx + 1 && outputs_view(output)[k] == Some(g))
                            implies taken.contains(g) by {
                            let k = choose|k: int|
                                0 <= k < idx + 1 && outputs_view(output)[k] == Some(g);
                            assert(k < idx);
                            assert(out_before[k] == Some(g));
                        }
                    }
                },
            }
            dirs.push(clone_path(d));
            proof {
                let taken2 = match e0 {
                    Some(nm) => taken_before.insert(nm),
                    None => taken_before,
                };
                assert(taken == taken2);
                assert(plan_outputs(ex, taken_before, pfx, dirsv.skip(idx as int), keep) == seq![
                    e0,
                ] + plan_outputs(ex, taken2, pfx, dirsv.skip(idx + 1), keep));
                assert(out_before.push(e0) + plan_outputs(ex, taken2, pfx, dirsv.skip(idx + 1), keep)
                    =~= out_before + (seq![e0] + plan_outputs(
                    ex,
                    taken2,
                    pfx,
                    dirsv.skip(idx + 1),
                    keep,
                )));
            }
            idx = idx + 1;
        }
        proof {
            assert(dirsv.skip(n as int).len() == 0);
            assert(outputs_view(output) + Seq::<Option<Seq<u8>>>::empty() =~= outputs_view(output));
            assert(paths_view(dirs) =~= paths_view(scan.dirs));
        }
        Ok(Move { dirs, output })
    }

    /// The planned pairs: each source directory beside its destination, in
    /// plan order.
    pub fn iter(&self) -> (r: Vec<(RelPath, Option<Name>)>)
        requires
            self.wf(),
        ensures
            r@.len() == self.dirs@.len(),
            forall|k: int|
                0 <= k < r@.len() ==> path_view(r@[k].0) == path_view(self.dirs@[k])
                    && opt_name_view(r@[k].1) == opt_name_view(self.output@[k]),
    {
        let mut r: Vec<(RelPath, Option<Name>)> = Vec::new();
        let mut i: usize = 0;
        while i < self.dirs.len()
            invariant
                self.wf(),
                i <= self.dirs@.len(),
                r@.len() == i,
                forall|k: int|
                    0 <= k < i ==> path_view(r@[k].0) == path_view(self.dirs@[k]) && opt_name_view(
                        r@[k].1,
                    ) == opt_name_view(self.output@[k]),
            decreases self.dirs@.len() - i,
        {
            let src = clone_path(&self.dirs[i]);
            let dst: Option<Name> = match &self.output[i] {
                Some(nm) => Some(clone_name(nm)),
                None => None,
            };
            r.push((src, dst));
            i = i + 1;
        }
        r
    }
}


/// Ten to the `w`.
pub open spec fn pow10(w: nat) -> nat
    decreases w,
{
    if w == 0 {
        1
    } else {
        10 * pow10((w - 1) as nat)
    }
}

/// A zero-padded field is as wide as asked.
pub proof fn lemma_dec_digits_len(v: nat, w: nat)
    ensures
        dec_digits(v, w).len() == w,
    decreases w,
{
    if w > 0 {
        lemma_dec_digits_len(v / 10, (w - 1) as nat);
    }
}

/// Within its width, a zero-padded decimal field determines its value.
pub proof fn lemma_dec_digits_injective(a: nat, b: nat, w: nat)
    requires
        a < pow10(w),
        b < pow10(w),
        dec_digits(a, w) == dec_digits(b, w),
    ensures
        a == b,
    decreases w,
{
    if w == 0 {
    } else {
        lemma_dec_digits_len(a / 10, (w - 1) as nat);
        lemma_dec_digits_len(b / 10, (w - 1) as nat);
        let da = dec_digits(a / 10, (w - 1) as nat);
        let db = dec_digits(b / 10, (w - 1) as nat);
        assert(da.push((48 + a % 10) as u8) == db.push((48 + b % 10) as u8));
        assert(da.push((48 + a % 10) as u8).last() == (48 + a % 10) as u8);
        assert((48 + a % 10) as u8 == (48 + b % 10) as u8);
        assert(a % 10 == b % 10);
        assert(da.push((48 + a % 10) as u8).drop_last() =~= da);
        assert(db.push((48 + b % 10) as u8).drop_last() =~= db);
        assert(da == db);
        assert(a / 10 < pow10((w - 1) as nat)) by {
            assert(a < 10 * pow10((w - 1) as nat));
        }
        assert(b / 10 < pow10((w - 1) as nat)) by {
            assert(b < 10 * pow10((w - 1) as nat));
        }
        lemma_dec_digits_injective(a / 10, b / 10, (w - 1) as nat);
        assert(a == 10 * (a / 10) + a % 10);
        assert(b == 10 * (b / 10) + b % 10);
    }
}

/// Two sequential candidate names with the same prefix and distinct numbers
/// below the budget differ.
proof fn lemma_seq_candidate_injective(prefix: Seq<u8>, x: nat, y: nat)
    requires
        x < 1000000,
        y < 1000000,
        seq_candidate(prefix, x) == seq_candidate(prefix, y),
    ensures
        x == y,
{
    lemma_dec_digits_len(x, 6);
    lemma_dec_digits_len(y, 6);
    assert(dec_digits(x, 6) =~= dec_digits(y, 6)) by {
        assert(forall|i: int|
            0 <= i < 6 ==> dec_digits(x, 6)[i] == seq_candidate(prefix, x)[prefix.len() + i]
                && dec_digits(y, 6)[i] == seq_candidate(prefix, y)[prefix.len() + i]);
    }
    assert(pow10(6) == 1000000) by {
        assert(pow10(0) == 1);
        assert(pow10(1) == 10);
        assert(pow10(2) == 100);
        assert(pow10(3) == 1000);
        assert(pow10(4) == 10000);
        assert(pow10(5) == 100000);
        assert(pow10(6) == 1000000);
    }
    lemma_dec_digits_injective(x, y, 6);
}

/// The sequential names numbered below `bound`.
pub open spec fn seq_names_below(prefix: Seq<u8>, bound: nat) -> Set<Seq<u8>> {
    Set::new(|x: Seq<u8>| exists|j: int| 0 <= j < bound && x == #[trigger] seq_candidate(prefix, j as nat))
}

/// With nothing pre-existing and the names below `base` already claimed,
/// the sequential search from any attempt at or below `base` lands on
/// `base`.
proof fn lemma_first_free_sequential(prefix: Seq<u8>, rel: Seq<Seq<u8>>, base: nat, a: nat)
    requires
        a <= base < 1000000,
    ensures
        first_free(Seq::empty(), seq_names_below(prefix, base), prefix, rel, false, a) == Some(
            seq_candidate(prefix, base),
        ),
    decreases base - a,
{
    let taken = seq_names_below(prefix, base);
    let cand = candidate_name(prefix, rel, false, a);
    assert(cand == seq_candidate(prefix, a));
    if a < base {
        assert(taken.contains(cand)) by {
            let j: int = a as int;
            assert(0 <= j < base && cand == seq_candidate(prefix, j as nat));
        }
        lemma_first_free_sequential(prefix, rel, base, a + 1);
    } else {
        assert(!taken.contains(cand)) by {
            if taken.contains(cand) {
                let j = choose|j: int|
                    0 <= j < base && cand == #[trigger] seq_candidate(prefix, j as nat);
                lemma_seq_candidate_injective(prefix, j as nat, base);
            }
        }
        assert(!Seq::<Seq<u8>>::empty().contains(cand));
    }
}

/// Sequential fallback: with an empty target directory and the names below
/// `base` already claimed, the entries are numbered `base`, `base + 1`, and
/// so on, in plan order.
proof fn lemma_plan_sequential_from(prefix: Seq<u8>, dirs: Seq<Seq<Seq<u8>>>, base: nat)
    requires
        base + dirs.len() <= 1000000,
    ensures
        plan_outputs(Seq::empty(), seq_names_below(prefix, base), prefix, dirs, false) == Seq::new(
            dirs.len(),
            |i: int| Some(seq_candidate(prefix, (base + i) as nat)),
        ),
    decreases dirs.len(),
{
    let taken = seq_names_below(prefix, base);
    let r = plan_outputs(Seq::empty(), taken, prefix, dirs, false);
    if dirs.len() == 0 {
        assert(r =~= Seq::new(dirs.len(), |i: int| Some(seq_candidate(prefix, (base + i) as nat))));
    } else {
        lemma_first_free_sequential(prefix, dirs.first(), base, 0);
        let c = seq_candidate(prefix, base);
        assert(plan_entry(Seq::empty(), taken, prefix, dirs.first(), false) == Some(c));
        assert(taken.insert(c) =~= seq_names_below(prefix, base + 1)) by {
            assert forall|x: Seq<u8>| taken.insert(c).contains(x) implies seq_names_below(
                prefix,
                base + 1,
            ).contains(x) by {
                if x == c {
                    let j: int = base as int;
                    assert(0 <= j < base + 1 && x == seq_candidate(prefix, j as nat));
                } else {
                    assert(taken.contains(x));
                    let j = choose|j: int|
                        0 <= j < base && x == #[trigger] seq_candidate(prefix, j as nat);
                    assert(0 <= j < base + 1 && x == seq_candidate(prefix, j as nat));
                }
            }
            assert forall|x: Seq<u8>| seq_names_below(prefix, base + 1).contains(x) implies taken
                .insert(c).contains(x) by {
                let j = choose|j: int|
                    0 <= j < base + 1 && x == #[trigger] seq_candidate(prefix, j as nat);
                if j < base {
                    assert(taken.contains(x));
                }
            }
        }
        lemma_plan_sequential_from(prefix, dirs.drop_first(), base + 1);
        assert(r =~= Seq::new(dirs.len(), |i: int| Some(seq_candidate(prefix, (base + i) as nat))))
            by {
            let tail = plan_outputs(
                Seq::empty(),
                seq_names_below(prefix, base + 1),
                prefix,
                dirs.drop_first(),
                false,
            );
            assert(r == seq![Some(c)] + tail);
            assert(forall|i: int|
                0 <= i < tail.len() ==> tail[i] == Some(
                    seq_candidate(prefix, (base + 1 + i) as nat),
                ));
        }
    }
}

/// Sequential fallback: without path preservation and into an empty target
/// directory, the planned destinations are the prefix followed by the
/// six-digit numbers counting up from zero, in plan order.
pub proof fn lemma_plan_sequential(prefix: Seq<u8>, dirs: Seq<Seq<Seq<u8>>>)
    requires
        dirs.len() <= 1000000,
    ensures
        plan_outputs(Seq::empty(), Set::empty(), prefix, dirs, false) == Seq::new(
            dirs.len(),
            |i: int| Some(seq_candidate(prefix, i as nat)),
        ),
{
    assert(seq_names_below(prefix, 0) =~= Set::<Seq<u8>>::empty());
    lemma_plan_sequential_from(prefix, dirs, 0);
    assert(Seq::new(dirs.len(), |i: int| Some(seq_candidate(prefix, (0 + i) as nat))) =~= Seq::new(
        dirs.len(),
        |i: int| Some(seq_candidate(prefix, i as nat)),
    ));
}

} // verus!
