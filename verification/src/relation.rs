//! How a branch's commit stands to a base and a head.
//!
//! Each rule is decided from two answers of the repository: the merge-base
//! of the commit with the head, and its merge-base with the base. A missing
//! merge-base (unrelated or unknown history) makes the commit fail the rule;
//! it is never an error.

use crate::oid::same_oid;
use crate::repo::Repo;
use git2::Oid;
use vstd::prelude::*;

verus! {

/// The commit descends from `base`: its merge-base with `base` is `base`
/// itself. This holds of `base`.
pub open spec fn descends_from_base(base: Oid, merge_with_base: Option<Oid>) -> bool {
    merge_with_base == Some(base)
}

/// The commit is a sibling of the head: the only history the two share is
/// `base`, and the commit is not `base` itself.
pub open spec fn meets_head_only_at_base(
    commit: Oid,
    base: Oid,
    merge_with_head: Option<Oid>,
) -> bool {
    merge_with_head == Some(base) && commit != base
}

/// The commit is an ancestor of the head, or the head itself: its merge-base
/// with the head is the commit.
pub open spec fn is_ancestor_of_head(commit: Oid, merge_with_head: Option<Oid>) -> bool {
    merge_with_head == Some(commit)
}

/// The rule of `dependents`: the commit descends from `base` and did not
/// part from the head's line at `base`.
pub open spec fn dependent_rule(
    commit: Oid,
    base: Oid,
    merge_with_head: Option<Oid>,
    merge_with_base: Option<Oid>,
) -> bool {
    descends_from_base(base, merge_with_base) && !meets_head_only_at_base(
        commit,
        base,
        merge_with_head,
    )
}

/// The rule of `branch`: the commit lies on the line from `base` to the
/// head, both ends included.
pub open spec fn on_path_rule(
    commit: Oid,
    base: Oid,
    merge_with_head: Option<Oid>,
    merge_with_base: Option<Oid>,
) -> bool {
    is_ancestor_of_head(commit, merge_with_head) && descends_from_base(base, merge_with_base)
}

/// `dependent_rule` with the answers that `repo` gives for `commit`.
pub open spec fn is_dependent_in<R: Repo>(repo: &R, commit: Oid, base: Oid, head: Oid) -> bool {
    dependent_rule(
        commit,
        base,
        repo.merge_base_of(commit, head),
        repo.merge_base_of(commit, base),
    )
}

/// `on_path_rule` with the answers that `repo` gives for `commit`.
pub open spec fn is_on_path_in<R: Repo>(repo: &R, commit: Oid, base: Oid, head: Oid) -> bool {
    on_path_rule(commit, base, repo.merge_base_of(commit, head), repo.merge_base_of(commit, base))
}

/// Whether `found` is the commit `wanted`.
pub fn is_commit(found: Option<Oid>, wanted: Oid) -> (yes: bool)
    ensures
        yes == (found == Some(wanted)),
{
    match found {
        Some(oid) => same_oid(oid, wanted),
        None => false,
    }
}

/// Decides `dependent_rule` from the two merge-bases of `commit`.
pub fn is_dependent(
    commit: Oid,
    base: Oid,
    merge_with_head: Option<Oid>,
    merge_with_base: Option<Oid>,
) -> (keep: bool)
    ensures
        keep == dependent_rule(commit, base, merge_with_head, merge_with_base),
{
    let shares_only_base = is_commit(merge_with_head, base) && !same_oid(commit, base);
    let descends = is_commit(merge_with_base, base);
    !shares_only_base && descends
}

/// Decides `on_path_rule` from the two merge-bases of `commit`.
pub fn is_on_path(
    commit: Oid,
    base: Oid,
    merge_with_head: Option<Oid>,
    merge_with_base: Option<Oid>,
) -> (keep: bool)
    ensures
        keep == on_path_rule(commit, base, merge_with_head, merge_with_base),
{
    let leads_to_head = is_commit(merge_with_head, commit);
    let descends = is_commit(merge_with_base, base);
    leads_to_head && descends
}

} // verus!
