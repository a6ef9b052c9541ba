//! Names and relative paths as raw bytes, with the small byte-string
//! operations the rest of the library builds on.

use vstd::prelude::*;

verus! {

/// A file or directory name: the bytes of its on-disk form.
pub type Name = Vec<u8>;

/// A directory path relative to a scan root, one name per level, outermost
/// first.
pub type RelPath = Vec<Name>;

/// The mathematical value of a relative path: its components as sequences of
/// bytes.
pub open spec fn path_view(p: RelPath) -> Seq<Seq<u8>> {
    Seq::new(p@.len(), |i: int| p@[i]@)
}

/// The mathematical value of a list of relative paths.
pub open spec fn paths_view(ps: Vec<RelPath>) -> Seq<Seq<Seq<u8>>> {
    Seq::new(ps@.len(), |i: int| path_view(ps@[i]))
}

/// The mathematical value of a list of names.
pub open spec fn names_view(ns: Vec<Name>) -> Seq<Seq<u8>> {
    Seq::new(ns@.len(), |i: int| ns@[i]@)
}

/// Byte-wise equality of two names.
pub fn bytes_eq(a: &Vec<u8>, b: &Vec<u8>) -> (r: bool)
    ensures
        r == (a@ == b@),
{
    if a.len() != b.len() {
        return false;
    }
    let mut i: usize = 0;
    while i < a.len()
        invariant
            a@.len() == b@.len(),
            i <= a@.len(),
            forall|k: int| 0 <= k < i ==> a@[k] == b@[k],
        decreases a@.len() - i,
    {
        if a[i] != b[i] {
            return false;
        }
        i = i + 1;
    }
    proof {
        assert(a@ =~= b@);
    }
    true
}

/// Whether `a` begins with the bytes of `p`.
pub fn starts_with(a: &Vec<u8>, p: &Vec<u8>) -> (r: bool)
    ensures
        r == (p@.len() <= a@.len() && a@.take(p@.len() as int) == p@),
{
    if p.len() > a.len() {
        return false;
    }
    let mut i: usize = 0;
    while i < p.len()
        invariant
            p@.len() <= a@.len(),
            i <= p@.len(),
            forall|k: int| 0 <= k < i ==> a@[k] == p@[k],
        decreases p@.len() - i,
    {
        if a[i] != p[i] {
            proof {
                assert(a@.take(p@.len() as int)[i as int] != p@[i as int]);
            }
            return false;
        }
        i = i + 1;
    }
    proof {
        assert(a@.take(p@.len() as int) =~= p@);
    }
    true
}

/// A copy of a name.
pub fn clone_name(n: &Vec<u8>) -> (r: Vec<u8>)
    ensures
        r@ == n@,
{
    let mut r: Vec<u8> = Vec::new();
    let mut i: usize = 0;
    while i < n.len()
        invariant
            i <= n@.len(),
            r@ == n@.take(i as int),
        decreases n@.len() - i,
    {
        r.push(n[i]);
        proof {
            assert(r@ =~= n@.take(i + 1));
        }
        i = i + 1;
    }
    proof {
        assert(n@.take(n@.len() as int) =~= n@);
    }
    r
}

/// A copy of a relative path.
pub fn clone_path(p: &RelPath) -> (r: RelPath)
    ensures
        path_view(r) == path_view(*p),
{
    let mut r: RelPath = Vec::new();
    let mut i: usize = 0;
    while i < p.len()
        invariant
            i <= p@.len(),
            r@.len() == i,
            forall|k: int| 0 <= k < i ==> r@[k]@ == p@[k]@,
        decreases p@.len() - i,
    {
        r.push(clone_name(&p[i]));
        i = i + 1;
    }
    proof {
        assert(path_view(r) =~= path_view(*p));
    }
    r
}

/// Appends the bytes of `src` to `dst`.
pub fn append_bytes(dst: &mut Vec<u8>, src: &Vec<u8>)
    ensures
        final(dst)@ == old(dst)@ + src@,
{
    let mut i: usize = 0;
    while i < src.len()
        invariant
            i <= src@.len(),
            dst@ == old(dst)@ + src@.take(i as int),
        decreases src@.len() - i,
    {
        dst.push(src[i]);
        proof {
            assert(old(dst)@ + src@.take(i as int) + seq![src@[i as int]] =~= old(dst)@
                + src@.take(i + 1));
        }
        i = i + 1;
    }
    proof {
        assert(old(dst)@ + src@.take(src@.len() as int) =~= old(dst)@ + src@);
    }
}

/// Whether some entry of `v` holds exactly the bytes of `n`.
pub fn contains_name(v: &Vec<Name>, n: &Vec<u8>) -> (r: bool)
    ensures
        r == names_view(*v).contains(n@),
{
    let mut i: usize = 0;
    while i < v.len()
        invariant
            i <= v@.len(),
            forall|k: int| 0 <= k < i ==> names_view(*v)[k] != n@,
        decreases v@.len() - i,
    {
        if bytes_eq(&v[i], n) {
            proof {
                assert(names_view(*v)[i as int] == n@);
            }
            return true;
        }
        i = i + 1;
    }
    proof {
        assert(forall|k: int| 0 <= k < names_view(*v).len() ==> names_view(*v)[k] != n@);
    }
    false
}

/// The leaf name with one leading occurrence of `prefix` removed, if it
/// begins with it.
pub open spec fn stripped_spec(nm: Seq<u8>, prefix: Seq<u8>) -> Seq<u8> {
    if prefix.len() <= nm.len() && nm.take(prefix.len() as int) == prefix {
        nm.skip(prefix.len() as int)
    } else {
        nm
    }
}

/// Removes a single leading occurrence of `prefix` from `nm`.
pub fn stripped(nm: &Vec<u8>, prefix: &Vec<u8>) -> (r: Vec<u8>)
    ensures
        r@ == stripped_spec(nm@, prefix@),
{
    let start: usize = if starts_with(nm, prefix) {
        prefix.len()
    } else {
        0
    };
    let mut r: Vec<u8> = Vec::new();
    let mut i: usize = start;
    while i < nm.len()
        invariant
            start <= i <= nm@.len(),
            r@ == nm@.subrange(start as int, i as int),
        decreases nm@.len() - i,
    {
        r.push(nm[i]);
        proof {
            assert(r@ =~= nm@.subrange(start as int, i + 1));
        }
        i = i + 1;
    }
    proof {
        assert(r@ =~= nm@.skip(start as int));
        if start == 0 {
            assert(nm@.skip(0) =~= nm@);
        }
    }
    r
}

} // verus!
