//! Commit identifiers and their order.
//!
//! A commit is named by a `git2::Oid`. The index keeps its groups in the
//! order of these ids, so the order is spelled out here: it is the
//! lexicographic order of the raw bytes of the ids.

use git2::Oid;
use std::cmp::Ordering;
use vstd::prelude::*;

verus! {

/// `git2::Oid`: the id of a git object, carried through as an opaque value.
#[verifier::external_type_specification]
#[verifier::external_body]
pub struct ExOid(Oid);

/// The raw bytes of an id, those that `Oid::as_bytes` hands out.
pub uninterp spec fn oid_bytes(oid: Oid) -> Seq<u8>;

/// Lexicographic order on byte strings: the first position at which the two
/// differ decides, and a proper prefix comes before what it is a prefix of.
pub open spec fn bytes_before(a: Seq<u8>, b: Seq<u8>) -> bool
    decreases a.len(),
{
    if b.len() == 0 {
        false
    } else if a.len() == 0 {
        true
    } else if a[0] != b[0] {
        a[0] < b[0]
    } else {
        bytes_before(a.skip(1), b.skip(1))
    }
}

/// The order in which the index keeps commits: `a` comes strictly before `b`.
pub open spec fn oid_before(a: Oid, b: Oid) -> bool {
    bytes_before(oid_bytes(a), oid_bytes(b))
}

/// A sequence of ids in strictly ascending order.
pub open spec fn ascending(ids: Seq<Oid>) -> bool {
    forall|i: int, j: int| 0 <= i < j < ids.len() ==> oid_before(ids[i], ids[j])
}

/// Where one id stands relative to another.
pub(crate) enum IdOrder {
    Before,
    Same,
    After,
}

/// No byte string comes before itself.
pub proof fn lemma_bytes_before_irreflexive(a: Seq<u8>)
    ensures
        !bytes_before(a, a),
    decreases a.len(),
{
    if a.len() > 0 {
        lemma_bytes_before_irreflexive(a.skip(1));
    }
}

/// The order on byte strings is transitive.
pub proof fn lemma_bytes_before_transitive(a: Seq<u8>, b: Seq<u8>, c: Seq<u8>)
    requires
        bytes_before(a, b),
        bytes_before(b, c),
    ensures
        bytes_before(a, c),
    decreases a.len(),
{
    if a.len() > 0 && a[0] == b[0] && b[0] == c[0] {
        lemma_bytes_before_transitive(a.skip(1), b.skip(1), c.skip(1));
    }
}

/// An id never comes before itself, so ids in order are distinct.
pub proof fn lemma_oid_before_irreflexive(a: Oid, b: Oid)
    requires
        oid_before(a, b),
    ensures
        a != b,
        !oid_before(b, a),
{
    lemma_bytes_before_irreflexive(oid_bytes(a));
    if oid_before(b, a) {
        lemma_bytes_before_transitive(oid_bytes(a), oid_bytes(b), oid_bytes(a));
    }
}

/// The order on ids is transitive.
pub proof fn lemma_oid_before_transitive(a: Oid, b: Oid, c: Oid)
    requires
        oid_before(a, b),
        oid_before(b, c),
    ensures
        oid_before(a, c),
{
    lemma_bytes_before_transitive(oid_bytes(a), oid_bytes(b), oid_bytes(c));
}

/// `Oid`'s `==`. libgit2 compares the raw bytes, and an `Oid` holds nothing
/// else, so two ids are equal exactly when they are the same value.
#[verifier::external_body]
pub(crate) fn same_oid(a: Oid, b: Oid) -> (same: bool)
    ensures
        same == (a == b),
{
    a == b
}

/// `Oid`'s `Ord::cmp`. libgit2 compares the raw bytes of the two ids from the
/// front, as `memcmp` does: the result is their lexicographic order, and it
/// is `Equal` exactly when the two ids are the same value.
#[verifier::external_body]
pub(crate) fn order_oids(a: Oid, b: Oid) -> (order: IdOrder)
    ensures
        (order is Before) == bytes_before(oid_bytes(a), oid_bytes(b)),
        (order is After) == bytes_before(oid_bytes(b), oid_bytes(a)),
        (order is Same) == (a == b),
{
    match a.cmp(&b) {
        Ordering::Less => IdOrder::Before,
        Ordering::Equal => IdOrder::Same,
        Ordering::Greater => IdOrder::After,
    }
}

} // verus!
