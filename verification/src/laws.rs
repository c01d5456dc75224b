//! What holds of the filters of the index, whatever the index and whatever
//! the repository answers.

use crate::branches::{
    anchors, dependent_commits, dependents_of, grouped, has_protected_base, is_protected_base,
    on_path_commits, on_path_of, points_at, recorded_at,
};
use crate::oid::{
    ascending, bytes_before, lemma_oid_before_irreflexive, lemma_oid_before_transitive,
    oid_before,
};
use crate::relation::{dependent_rule, on_path_rule};
use crate::protect::{judged_by, lemma_retained_members, protected_of, retained, says};
use crate::repo::{BranchView, Repo};
use git2::Oid;
use vstd::prelude::*;

verus! {

/// Grouping loses no branch and makes no empty group: every branch supplied
/// stands in the group of its commit, and a group holds at least one branch
/// and only branches that point at its commit.
pub proof fn grouped_keeps_every_branch(branches: Seq<BranchView>)
    ensures
        forall|i: int|
            0 <= i < branches.len() ==> grouped(branches).contains_key(
                (#[trigger] branches[i]).id,
            ) && grouped(branches)[branches[i].id].contains(branches[i]),
        forall|id: Oid| #[trigger]
            grouped(branches).contains_key(id) ==> grouped(branches)[id].len() > 0,
        forall|id: Oid, j: int|
            grouped(branches).contains_key(id) && 0 <= j < grouped(branches)[id].len() ==> (
            #[trigger] grouped(branches)[id][j]).id == id,
{
    assert forall|i: int| 0 <= i < branches.len() implies grouped(branches).contains_key(
        (#[trigger] branches[i]).id,
    ) && grouped(branches)[branches[i].id].contains(branches[i]) by {
        branches.lemma_filter_contains(points_at(branches[i].id), i);
    }
    assert forall|id: Oid| #[trigger] grouped(branches).contains_key(id) implies grouped(
        branches,
    )[id].len() > 0 by {
        let i = choose|i: int| 0 <= i < branches.len() && (#[trigger] branches[i]).id == id;
        branches.lemma_filter_contains(points_at(id), i);
    }
    assert forall|id: Oid, j: int|
        grouped(branches).contains_key(id) && 0 <= j < grouped(branches)[id].len() implies (
    #[trigger] grouped(branches)[id][j]).id == id by {
        branches.lemma_filter_pred(points_at(id), j);
    }
}

/// A commit on the line from the base to the head is a dependent of the
/// base: its merge-base with the head is the commit itself, so it can only
/// be the base if the commit is the base.
pub proof fn on_path_implies_dependent(
    commit: Oid,
    base: Oid,
    merge_with_head: Option<Oid>,
    merge_with_base: Option<Oid>,
)
    requires
        on_path_rule(commit, base, merge_with_head, merge_with_base),
    ensures
        dependent_rule(commit, base, merge_with_head, merge_with_base),
{
}

/// For one base and one head, every group that `branch` keeps is kept by
/// `dependents` too, with the same branches.
pub proof fn on_path_within_dependents<R: Repo>(
    index: Map<Oid, Seq<BranchView>>,
    repo: &R,
    base: Oid,
    head: Oid,
)
    ensures
        on_path_of(index, repo, base, head).submap_of(dependents_of(index, repo, base, head)),
{
    assert forall|commit: Oid| #[trigger]
        on_path_of(index, repo, base, head).contains_key(commit) implies dependents_of(
        index,
        repo,
        base,
        head,
    ).contains_key(commit) by {
        assert(on_path_commits(repo, base, head)(commit));
        assert(dependent_commits(repo, base, head)(commit));
    }
}

/// `dependents` is a function of the index, the answers of the repository,
/// the base and the head, and applying it to its own result changes nothing:
/// asked again for the same base and head, it returns the same index.
pub proof fn dependents_twice_is_once<R: Repo>(
    index: Map<Oid, Seq<BranchView>>,
    repo: &R,
    base: Oid,
    head: Oid,
)
    ensures
        dependents_of(dependents_of(index, repo, base, head), repo, base, head) == dependents_of(
            index,
            repo,
            base,
            head,
        ),
{
    assert(dependents_of(dependents_of(index, repo, base, head), repo, base, head) =~= dependents_of(
        index,
        repo,
        base,
        head,
    ));
}

/// A filter only takes groups away: what `dependents` returns is a part of
/// the index it was asked about.
pub proof fn dependents_within_index<R: Repo>(
    index: Map<Oid, Seq<BranchView>>,
    repo: &R,
    base: Oid,
    head: Oid,
)
    ensures
        dependents_of(index, repo, base, head).submap_of(index),
        on_path_of(index, repo, base, head).submap_of(index),
{
}

/// The group of the base is a dependent of the base whenever the repository
/// knows the base, that is, finds it to be its own merge-base.
pub proof fn base_is_its_own_dependent<R: Repo>(
    index: Map<Oid, Seq<BranchView>>,
    repo: &R,
    base: Oid,
    head: Oid,
)
    requires
        index.contains_key(base),
        repo.merge_base_of(base, base) == Some(base),
    ensures
        dependents_of(index, repo, base, head).contains_key(base),
{
    assert(dependent_commits(repo, base, head)(base));
}

/// What the verdicts of a matcher leave of an index holds no empty group,
/// only groups of the index, and in them only branches that stood in the
/// group and that the matcher accepted.
pub proof fn protected_part_is_protected<F: Fn(&str) -> bool>(
    matcher: F,
    index: Map<Oid, Seq<BranchView>>,
    verdicts: Map<Oid, Seq<bool>>,
)
    requires
        judged_by(matcher, index, verdicts),
    ensures
        forall|id: Oid| #[trigger]
            protected_of(index, verdicts).contains_key(id) ==> index.contains_key(id)
                && protected_of(index, verdicts)[id].len() > 0,
        forall|id: Oid, j: int|
            protected_of(index, verdicts).contains_key(id) && 0 <= j < protected_of(
                index,
                verdicts,
            )[id].len() ==> index[id].contains(#[trigger] protected_of(index, verdicts)[id][j])
                && says(matcher, protected_of(index, verdicts)[id][j].name, true),
{
    assert forall|id: Oid, j: int|
        protected_of(index, verdicts).contains_key(id) && 0 <= j < protected_of(
            index,
            verdicts,
        )[id].len() implies index[id].contains(#[trigger] protected_of(index, verdicts)[id][j])
        && says(matcher, protected_of(index, verdicts)[id][j].name, true) by {
        let kept = retained(index[id], verdicts[id]);
        lemma_retained_members(index[id], verdicts[id]);
        let t = choose|t: int|
            0 <= t < index[id].len() && t < verdicts[id].len() && verdicts[id][t] && index[id][t]
                == kept[j];
        assert(says(matcher, index[id][t].name, verdicts[id][t]));
    }
}

/// A head has at most one protected base, and has one only where its
/// history meets the history of a commit of the index.
pub proof fn protected_base_is_unique<R: Repo>(
    repo: &R,
    index: Map<Oid, Seq<BranchView>>,
    head: Oid,
    one: BranchView,
    other: BranchView,
)
    requires
        is_protected_base(repo, index, head, one),
        is_protected_base(repo, index, head, other),
    ensures
        one == other,
        has_protected_base(repo, index, head),
{
    let history = repo.ancestry(head)@;
    let (near_one, anchor_one) = choose|nearest: int, protected: Oid|
        {
            &&& 0 <= nearest < history.len()
            &&& forall|n: int|
                0 <= n < nearest ==> !recorded_at(repo, index, head, #[trigger] history[n])
            &&& #[trigger] anchors(repo, index, head, history[nearest], protected)
            &&& index[protected].len() > 0
            &&& one == index[protected][0]
        };
    let (near_other, anchor_other) = choose|nearest: int, protected: Oid|
        {
            &&& 0 <= nearest < history.len()
            &&& forall|n: int|
                0 <= n < nearest ==> !recorded_at(repo, index, head, #[trigger] history[n])
            &&& #[trigger] anchors(repo, index, head, history[nearest], protected)
            &&& index[protected].len() > 0
            &&& other == index[protected][0]
        };
    assert(recorded_at(repo, index, head, history[near_one]));
    assert(recorded_at(repo, index, head, history[near_other]));
    assert(near_one == near_other);
    if anchor_one != anchor_other {
        if oid_before(anchor_one, anchor_other) {
            lemma_oid_before_irreflexive(anchor_one, anchor_other);
        } else {
            lemma_oid_before_irreflexive(anchor_other, anchor_one);
        }
    }
}

/// The order of ids is total on their bytes: of two distinct byte strings
/// one comes before the other.
pub proof fn bytes_order_is_total(a: Seq<u8>, b: Seq<u8>)
    ensures
        bytes_before(a, b) || bytes_before(b, a) || a == b,
    decreases a.len(),
{
    if a.len() > 0 && b.len() > 0 && a[0] == b[0] {
        bytes_order_is_total(a.skip(1), b.skip(1));
        if a.skip(1) == b.skip(1) {
            assert(a =~= seq![a[0]] + a.skip(1));
            assert(b =~= seq![b[0]] + b.skip(1));
        }
    } else if a.len() == 0 && b.len() == 0 {
        assert(a =~= b);
    }
}

/// There is one way only to list given commits in ascending order. So the
/// commits that `oids` and `iter` walk through depend on which commits have
/// branches, and not on the order in which the branches were supplied.
pub proof fn ascending_is_unique(one: Seq<Oid>, other: Seq<Oid>)
    requires
        ascending(one),
        ascending(other),
        forall|id: Oid| one.contains(id) == other.contains(id),
    ensures
        one == other,
    decreases one.len(),
{
    if one.len() == 0 {
        if other.len() > 0 {
            assert(other.contains(other[0]));
        }
        assert(one =~= other);
    } else {
        assert(one.contains(one[0]));
        let j = choose|j: int| 0 <= j < other.len() && other[j] == one[0];
        assert(other.contains(other[0]));
        let i = choose|i: int| 0 <= i < one.len() && one[i] == other[0];
        if j > 0 {
            if i > 0 {
                lemma_oid_before_transitive(one[0], one[i], other[j]);
            }
            lemma_oid_before_irreflexive(other[0], other[j]);
        }
        assert(one[0] == other[0]);
        let rest = one.skip(1);
        let other_rest = other.skip(1);
        assert forall|id: Oid| rest.contains(id) == other_rest.contains(id) by {
            if rest.contains(id) {
                let k = choose|k: int| 0 <= k < rest.len() && rest[k] == id;
                assert(one[k + 1] == id);
                lemma_oid_before_irreflexive(one[0], one[k + 1]);
                assert(other.contains(id));
                let l = choose|l: int| 0 <= l < other.len() && other[l] == id;
                assert(other_rest[l - 1] == id);
            }
            if other_rest.contains(id) {
                let k = choose|k: int| 0 <= k < other_rest.len() && other_rest[k] == id;
                assert(other[k + 1] == id);
                lemma_oid_before_irreflexive(other[0], other[k + 1]);
                assert(one.contains(id));
                let l = choose|l: int| 0 <= l < one.len() && one[l] == id;
                assert(rest[l - 1] == id);
            }
        }
        ascending_is_unique(rest, other_rest);
        assert(one =~= seq![one[0]] + rest);
        assert(other =~= seq![other[0]] + other_rest);
    }
}

} // verus!
