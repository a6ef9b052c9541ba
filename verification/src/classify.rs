//! The two directory classifiers: a directory is a complete portrait set
//! when all three marker files sit directly inside it, and incomplete
//! otherwise.

use vstd::prelude::*;

use crate::tree::Tree;
use crate::tree::find_file;

verus! {

/// The bytes of the first marker file name.
pub open spec fn small_name() -> Seq<u8> {
    seq![83, 109, 97, 108, 108, 46, 112, 110, 103]
}

/// The bytes of the second marker file name.
pub open spec fn medium_name() -> Seq<u8> {
    seq![77, 101, 100, 105, 117, 109, 46, 112, 110, 103]
}

/// The bytes of the third marker file name.
pub open spec fn full_name() -> Seq<u8> {
    seq![70, 117, 108, 108, 108, 101, 110, 103, 116, 104, 46, 112, 110, 103]
}

/// The name of the small marker file, `Small.png`.
pub fn small_png() -> (r: Vec<u8>)
    ensures
        r@ == small_name(),
{
    let r: Vec<u8> = vec![83, 109, 97, 108, 108, 46, 112, 110, 103];
    proof {
        assert(r@ =~= small_name());
    }
    r
}

/// The name of the medium marker file, `Medium.png`.
pub fn medium_png() -> (r: Vec<u8>)
    ensures
        r@ == medium_name(),
{
    let r: Vec<u8> = vec![77, 101, 100, 105, 117, 109, 46, 112, 110, 103];
    proof {
        assert(r@ =~= medium_name());
    }
    r
}

/// The name of the full-length marker file, `Fulllength.png`.
pub fn fulllength_png() -> (r: Vec<u8>)
    ensures
        r@ == full_name(),
{
    let r: Vec<u8> = vec![70, 117, 108, 108, 108, 101, 110, 103, 116, 104, 46, 112, 110, 103];
    proof {
        assert(r@ =~= full_name());
    }
    r
}

/// Whether a regular file named `nm` sits directly inside `t`.
pub open spec fn has_file(t: Tree, nm: Seq<u8>) -> bool {
    find_file(t.files@, nm) is Some
}

/// A directory is a complete portrait set exactly when all three marker
/// files sit directly inside it as regular files.
pub open spec fn complete_set(t: Tree) -> bool {
    has_file(t, small_name()) && has_file(t, medium_name()) && has_file(t, full_name())
}

/// Which directories a scan records: complete portrait sets, or their exact
/// complement.
#[derive(Clone, Copy)]
pub enum Classifier {
    CompleteSet,
    IncompleteSet,
}

/// What the classifier holds of a directory.
pub open spec fn classifier_accepts(c: Classifier, t: Tree) -> bool {
    match c {
        Classifier::CompleteSet => complete_set(t),
        Classifier::IncompleteSet => !complete_set(t),
    }
}

/// The two classifiers are exact complements on every directory.
pub proof fn lemma_classifier_complement(t: Tree)
    ensures
        classifier_accepts(Classifier::IncompleteSet, t) == !classifier_accepts(
            Classifier::CompleteSet,
            t,
        ),
{
}

/// Evaluates the classifier on a directory.
pub fn accepts(c: Classifier, t: &Tree) -> (r: bool)
    ensures
        r == classifier_accepts(c, *t),
{
    let small = crate::tree::get_file(t, &small_png());
    let medium = crate::tree::get_file(t, &medium_png());
    let full = crate::tree::get_file(t, &fulllength_png());
    let complete = small.is_some() && medium.is_some() && full.is_some();
    match c {
        Classifier::CompleteSet => complete,
        Classifier::IncompleteSet => !complete,
    }
}

} // verus!
