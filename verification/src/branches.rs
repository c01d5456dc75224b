//! The index of branches by commit.

use crate::groups::{
    climbing, copy_branches, holds, insert_branch, lemma_picked, lemma_protected, lemma_slot,
    locate, model, slot_of, verdicts_by_commit, well_formed, Group,
};
use crate::oid::{ascending, lemma_oid_before_irreflexive, oid_before};
use crate::protect::{ask_matcher, judged_by, protected_of, retain_protected, retained, says};
use crate::relation::{is_dependent, is_dependent_in, is_on_path, is_on_path_in};
use crate::record::{is_latest_record, is_recorded, nearest_record};
use crate::repo::{branch_views, Branch, BranchView, Repo};
use git2::Oid;
use vstd::prelude::*;
use vstd::std_specs::iter::IteratorSpec;

verus! {

/// Branches grouped by the commit they point at.
///
/// To the contracts an index is a map from commit to the branches at that
/// commit, each group in the order in which its branches were supplied.
/// No group is empty, and what walks the index meets the commits in
/// ascending order of their ids.
#[derive(Debug, PartialEq, Eq)]
pub struct Branches {
    groups: Vec<Group>,
}

/// Whether a branch points at `id`, as a predicate on branches.
pub open spec fn points_at(id: Oid) -> spec_fn(BranchView) -> bool {
    |branch: BranchView| branch.id == id
}

/// The index that a run of branches makes: a commit has a group where some
/// branch points at it, and its group is made of the branches that point at
/// it, in the order of the run.
pub open spec fn grouped(branches: Seq<BranchView>) -> Map<Oid, Seq<BranchView>> {
    Map::new(
        |id: Oid| exists|i: int| 0 <= i < branches.len() && (#[trigger] branches[i]).id == id,
        |id: Oid| branches.filter(points_at(id)),
    )
}

/// One more branch at the end of the run joins the group of its commit, as
/// its last member.
proof fn lemma_grouped_push(branches: Seq<BranchView>, branch: BranchView)
    ensures
        grouped(branches.push(branch)) == grouped(branches).insert(
            branch.id,
            (if grouped(branches).contains_key(branch.id) {
                grouped(branches)[branch.id]
            } else {
                Seq::empty()
            }).push(branch),
        ),
{
    let longer = branches.push(branch);
    let members = branches.filter(points_at(branch.id));
    if !grouped(branches).contains_key(branch.id) && members.len() > 0 {
        branches.lemma_filter_pred(points_at(branch.id), 0);
        branches.lemma_filter_contains_rev(points_at(branch.id), members[0]);
        let i = choose|i: int| 0 <= i < branches.len() && branches[i] == members[0];
        assert(branches[i].id == branch.id);
    }
    assert(!grouped(branches).contains_key(branch.id) ==> members =~= Seq::empty());
    let target = grouped(branches).insert(branch.id, members.push(branch));
    assert forall|id: Oid| grouped(longer).contains_key(id) == target.contains_key(id) by {
        if grouped(longer).contains_key(id) {
            let i = choose|i: int| 0 <= i < longer.len() && (#[trigger] longer[i]).id == id;
            if i < branches.len() {
                assert(branches[i].id == id);
            }
        }
        if grouped(branches).contains_key(id) {
            let i = choose|i: int| 0 <= i < branches.len() && (#[trigger] branches[i]).id == id;
            assert(longer[i].id == id);
        }
        if id == branch.id {
            assert(longer[branches.len() as int].id == id);
        }
    }
    assert forall|id: Oid| grouped(longer).contains_key(id) implies grouped(longer)[id]
        == target[id] by {
        branches.lemma_filter_push(branch, points_at(id));
    }
    assert(grouped(longer) =~= target);
}

/// The commits that `dependents` keeps: those that descend from `base` and
/// did not part from the line of `head` at `base`.
pub open spec fn dependent_commits<R: Repo>(repo: &R, base: Oid, head: Oid) -> spec_fn(Oid) -> bool {
    |commit: Oid| is_dependent_in(repo, commit, base, head)
}

/// The commits that `branch` keeps: those on the line from `base` to `head`.
pub open spec fn on_path_commits<R: Repo>(repo: &R, base: Oid, head: Oid) -> spec_fn(Oid) -> bool {
    |commit: Oid| is_on_path_in(repo, commit, base, head)
}

/// What `dependents` makes of an index: the groups of the dependent commits,
/// whole, and no other group.
pub open spec fn dependents_of<R: Repo>(
    index: Map<Oid, Seq<BranchView>>,
    repo: &R,
    base: Oid,
    head: Oid,
) -> Map<Oid, Seq<BranchView>> {
    index.restrict(Set::new(dependent_commits(repo, base, head)))
}

/// What `branch` makes of an index: the groups of the commits on the line
/// from `base` to `head`, whole, and no other group.
pub open spec fn on_path_of<R: Repo>(
    index: Map<Oid, Seq<BranchView>>,
    repo: &R,
    base: Oid,
    head: Oid,
) -> Map<Oid, Seq<BranchView>> {
    index.restrict(Set::new(on_path_commits(repo, base, head)))
}

impl View for Branches {
    type V = Map<Oid, Seq<BranchView>>;

    closed spec fn view(&self) -> Map<Oid, Seq<BranchView>> {
        model(self.groups@)
    }
}

impl Branches {
    /// What every index keeps to: its groups are sorted and well kept.
    #[verifier::type_invariant]
    spec fn inv(self) -> bool {
        well_formed(self.groups@)
    }

    /// Groups `branches` by the commit they point at. Within a group the
    /// branches keep the order in which they were supplied.
    pub fn new(branches: impl Iterator<Item = Branch>) -> (index: Branches)
        requires
            branches.obeys_prophetic_iter_laws(),
            branches.decrease() is Some,
        ensures
            index@ == grouped(branch_views(branches.remaining())),
    {
        let ghost supplied = branches.remaining();
        let ghost mut taken: int = 0;
        let mut rest = branches;
        let mut groups: Vec<Group> = Vec::new();
        loop
            invariant
                supplied == branches.remaining(),
                rest.obeys_prophetic_iter_laws(),
                rest.decrease() is Some,
                0 <= taken <= supplied.len(),
                rest.remaining() == supplied.skip(taken),
                well_formed(groups@),
                model(groups@) == grouped(branch_views(supplied.take(taken))),
            decreases rest.decrease()->0,
        {
            let branch = match rest.next() {
                Some(branch) => branch,
                None => {
                    assert(supplied.take(taken) =~= supplied);
                    return Branches { groups };
                },
            };
            proof {
                lemma_grouped_push(branch_views(supplied.take(taken)), branch@);
                assert(branch_views(supplied.take(taken + 1)) =~= branch_views(
                    supplied.take(taken),
                ).push(branch@));
                taken = taken + 1;
            }
            insert_branch(&mut groups, branch);
        }
    }

    /// Whether some branch points at `oid`.
    pub fn contains_oid(&self, oid: Oid) -> (present: bool)
        ensures
            present == self@.contains_key(oid),
    {
        proof {
            use_type_invariant(self);
        }
        locate(&self.groups, oid).1
    }

    /// The branches at `oid`, in the order in which they were supplied, if
    /// any branch points there.
    pub fn get(&self, oid: Oid) -> (found: Option<&[Branch]>)
        ensures
            match found {
                Some(branches) => {
                    &&& self@.contains_key(oid)
                    &&& branch_views(branches@) == self@[oid]
                    &&& branches@.len() > 0
                    &&& forall|j: int| 0 <= j < branches@.len() ==> (#[trigger] branches@[j]).id == oid
                },
                None => !self@.contains_key(oid),
            },
    {
        proof {
            use_type_invariant(self);
        }
        let (at, found) = locate(&self.groups, oid);
        if found {
            proof {
                lemma_slot(self.groups@, at as int);
            }
            Some(self.groups[at].branches.as_slice())
        } else {
            None
        }
    }

    /// Takes the group of `oid` out of the index and hands its branches
    /// over; the other groups stay as they are.
    pub fn remove(&mut self, oid: Oid) -> (removed: Option<Vec<Branch>>)
        ensures
            final(self)@ == old(self)@.remove(oid),
            match removed {
                Some(branches) => {
                    &&& old(self)@.contains_key(oid)
                    &&& branch_views(branches@) == old(self)@[oid]
                },
                None => !old(self)@.contains_key(oid),
            },
    {
        proof {
            use_type_invariant(&*self);
        }
        let (at, found) = locate(&self.groups, oid);
        if !found {
            return None;
        }
        let mut groups: Vec<Group> = Vec::new();
        std::mem::swap(&mut groups, &mut self.groups);
        let ghost before = groups@;
        let group = groups.remove(at);
        proof {
            let after = groups@;
            lemma_slot(before, at as int);
            assert forall|x: Oid| holds(after, x) == (holds(before, x) && x != oid) by {
                if holds(after, x) {
                    let k = slot_of(after, x);
                    if k < at {
                        assert(before[k].id == x);
                        lemma_oid_before_irreflexive(x, oid);
                    } else {
                        assert(before[k + 1].id == x);
                        lemma_oid_before_irreflexive(oid, x);
                    }
                }
                if holds(before, x) && x != oid {
                    let k = slot_of(before, x);
                    if k < at {
                        assert(after[k].id == x);
                    } else {
                        assert(after[k - 1].id == x);
                    }
                }
            }
            assert forall|x: Oid| model(after).contains_key(x) implies model(after)[x] == model(
                before,
            )[x] by {
                let k = slot_of(after, x);
                lemma_slot(after, k);
                if k < at {
                    lemma_slot(before, k);
                } else {
                    lemma_slot(before, k + 1);
                }
            }
            assert(model(after) =~= model(before).remove(oid));
        }
        self.groups = groups;
        Some(group.branches)
    }

    /// The commits that branches point at, in ascending order.
    pub fn oids(&self) -> (ids: impl Iterator<Item = Oid> + '_)
        ensures
            ids.obeys_prophetic_iter_laws(),
            ids.decrease() is Some,
            ascending(ids.remaining()),
            forall|id: Oid| ids.remaining().contains(id) == self@.contains_key(id),
    {
        proof {
            use_type_invariant(self);
        }
        let mut ids: Vec<Oid> = Vec::new();
        let mut i: usize = 0;
        while i < self.groups.len()
            invariant
                i <= self.groups.len(),
                ids.len() == i,
                forall|k: int| 0 <= k < i ==> #[trigger] ids[k] == self.groups[k].id,
            decreases self.groups.len() - i,
        {
            ids.push(self.groups[i].id);
            i = i + 1;
        }
        proof {
            assert forall|id: Oid| ids@.contains(id) == self@.contains_key(id) by {
                if ids@.contains(id) {
                    let k = choose|k: int| 0 <= k < ids@.len() && ids@[k] == id;
                    assert(self.groups@[k].id == id);
                }
                if holds(self.groups@, id) {
                    let k = slot_of(self.groups@, id);
                    assert(ids@[k] == id);
                }
            }
        }
        ids.into_iter()
    }

    /// The groups of the index, in ascending order of their commits: each
    /// commit with the branches that point at it.
    pub fn iter(&self) -> (groups: impl Iterator<Item = (Oid, &[Branch])> + '_)
        ensures
            groups.obeys_prophetic_iter_laws(),
            groups.decrease() is Some,
            forall|k: int, l: int|
                0 <= k < l < groups.remaining().len() ==> oid_before(
                    (#[trigger] groups.remaining()[k]).0,
                    (#[trigger] groups.remaining()[l]).0,
                ),
            forall|k: int|
                0 <= k < groups.remaining().len() ==> {
                    &&& self@.contains_key((#[trigger] groups.remaining()[k]).0)
                    &&& branch_views(groups.remaining()[k].1@) == self@[groups.remaining()[k].0]
                },
            forall|id: Oid|
                self@.contains_key(id) ==> exists|k: int|
                    0 <= k < groups.remaining().len() && (#[trigger] groups.remaining()[k]).0 == id,
    {
        proof {
            use_type_invariant(self);
        }
        let mut entries: Vec<(Oid, &[Branch])> = Vec::new();
        let mut i: usize = 0;
        while i < self.groups.len()
            invariant
                i <= self.groups.len(),
                entries.len() == i,
                forall|k: int|
                    0 <= k < i ==> (#[trigger] entries[k]).0 == self.groups[k].id && entries[k].1@
                        == self.groups[k].branches@,
            decreases self.groups.len() - i,
        {
            entries.push((self.groups[i].id, self.groups[i].branches.as_slice()));
            i = i + 1;
        }
        proof {
            assert forall|k: int| 0 <= k < entries.len() implies {
                &&& self@.contains_key((#[trigger] entries[k]).0)
                &&& branch_views(entries[k].1@) == self@[entries[k].0]
            } by {
                lemma_slot(self.groups@, k);
            }
            assert forall|id: Oid| self@.contains_key(id) implies exists|k: int|
                0 <= k < entries.len() && (#[trigger] entries[k]).0 == id by {
                let k = slot_of(self.groups@, id);
                assert(entries[k].0 == id);
            }
        }
        entries.into_iter()
    }

    /// Whether the index holds no branch at all.
    pub fn is_empty(&self) -> (empty: bool)
        ensures
            empty == (self@ == Map::<Oid, Seq<BranchView>>::empty()),
    {
        proof {
            use_type_invariant(self);
            if self.groups@.len() > 0 {
                lemma_slot(self.groups@, 0);
            } else {
                assert(self@ =~= Map::<Oid, Seq<BranchView>>::empty());
            }
        }
        self.groups.len() == 0
    }

    /// A copy of the whole index.
    pub fn all(&self) -> (copy: Self)
        ensures
            copy@ == self@,
    {
        self.clone()
    }

    /// The branches that follow from `base_oid` towards or around
    /// `head_oid`: a group is kept, whole, where its commit descends from the
    /// base and is no sibling that shares nothing with the head but the
    /// base. The group of the base itself is kept. A commit for which the
    /// repository finds no merge-base is left out.
    ///
    /// The repository is asked twice for each group, for the merge-base of
    /// the group's commit with the head and with the base.
    pub fn dependents<R: Repo>(&self, repo: &R, base_oid: Oid, head_oid: Oid) -> (kept: Self)
        ensures
            kept@ == dependents_of(self@, repo, base_oid, head_oid),
    {
        let ghost wanted = dependent_commits(repo, base_oid, head_oid);
        let mut keep: Vec<bool> = Vec::new();
        let mut i: usize = 0;
        while i < self.groups.len()
            invariant
                i <= self.groups.len(),
                keep.len() == i,
                wanted == dependent_commits(repo, base_oid, head_oid),
                forall|k: int| 0 <= k < i ==> #[trigger] keep[k] == wanted(self.groups[k].id),
            decreases self.groups.len() - i,
        {
            let branch_oid = self.groups[i].id;
            let merge_with_head = repo.merge_base(branch_oid, head_oid);
            let merge_with_base = repo.merge_base(branch_oid, base_oid);
            keep.push(is_dependent(branch_oid, base_oid, merge_with_head, merge_with_base));
            i = i + 1;
        }
        self.select(&keep, Ghost(wanted))
    }

    /// The branches on the way from `base_oid` to `head_oid`: a group is
    /// kept, whole, where its commit is an ancestor of the head, or the head,
    /// and descends from the base, or is the base. A commit for which the
    /// repository finds no merge-base is left out.
    ///
    /// The repository is asked twice for each group, for the merge-base of
    /// the group's commit with the head and with the base.
    pub fn branch<R: Repo>(&self, repo: &R, base_oid: Oid, head_oid: Oid) -> (kept: Self)
        ensures
            kept@ == on_path_of(self@, repo, base_oid, head_oid),
    {
        let ghost wanted = on_path_commits(repo, base_oid, head_oid);
        let mut keep: Vec<bool> = Vec::new();
        let mut i: usize = 0;
        while i < self.groups.len()
            invariant
                i <= self.groups.len(),
                keep.len() == i,
                wanted == on_path_commits(repo, base_oid, head_oid),
                forall|k: int| 0 <= k < i ==> #[trigger] keep[k] == wanted(self.groups[k].id),
            decreases self.groups.len() - i,
        {
            let branch_oid = self.groups[i].id;
            let merge_with_head = repo.merge_base(branch_oid, head_oid);
            let merge_with_base = repo.merge_base(branch_oid, base_oid);
            keep.push(is_on_path(branch_oid, base_oid, merge_with_head, merge_with_base));
            i = i + 1;
        }
        self.select(&keep, Ghost(wanted))
    }

    /// The protected branches: in each group the branches whose name
    /// `is_protected` accepts, in their order, and no group in which it
    /// accepts none.
    ///
    /// The matcher is asked once for each branch of the index.
    pub fn protected<F: Fn(&str) -> bool>(&self, is_protected: F) -> (kept: Self)
        requires
            forall|text: &str| call_requires(is_protected, (text,)),
        ensures
            exists|verdicts: Map<Oid, Seq<bool>>| #[trigger]
                judged_by(is_protected, self@, verdicts) && kept@ == protected_of(self@, verdicts),
            forall|id: Oid, j: int|
                kept@.contains_key(id) && 0 <= j < kept@[id].len() ==> says(
                    is_protected,
                    (#[trigger] kept@[id][j]).name,
                    true,
                ),
            forall|id: Oid| #[trigger] kept@.contains_key(id) ==> kept@[id].len() > 0,
    {
        proof {
            use_type_invariant(self);
        }
        let mut chosen: Vec<Group> = Vec::new();
        let ghost mut places: Seq<int> = Seq::empty();
        let ghost mut answers: Seq<Seq<bool>> = Seq::empty();
        let mut i: usize = 0;
        while i < self.groups.len()
            invariant
                i <= self.groups.len(),
                forall|text: &str| call_requires(is_protected, (text,)),
                answers.len() == i,
                forall|g: int|
                    0 <= g < i ==> (#[trigger] answers[g]).len() == self.groups[g].branches@.len(),
                forall|g: int, j: int|
                    0 <= g < i && 0 <= j < self.groups[g].branches@.len() ==> says(
                        is_protected,
                        self.groups[g].branches@[j].name@,
                        #[trigger] answers[g][j],
                    ),
                climbing(places, i as int),
                chosen.len() == places.len(),
                forall|k: int|
                    0 <= k < places.len() ==> (#[trigger] chosen[k]).id == self.groups[places[k]].id
                        && chosen[k].branches@ == retained(
                        self.groups[places[k]].branches@,
                        answers[places[k]],
                    ) && chosen[k].branches@.len() > 0,
                forall|g: int|
                    0 <= g < i && retained((#[trigger] self.groups[g]).branches@, answers[g]).len()
                        > 0 ==> exists|k: int| 0 <= k < places.len() && #[trigger] places[k] == g,
            decreases self.groups.len() - i,
        {
            let group = &self.groups[i];
            let verdicts = ask_matcher(&is_protected, group.branches.as_slice());
            let branches = retain_protected(group.branches.as_slice(), verdicts.as_slice());
            proof {
                answers = answers.push(verdicts@);
            }
            if branches.len() > 0 {
                chosen.push(Group { id: group.id, branches });
                proof {
                    let earlier = places;
                    places = places.push(i as int);
                    assert forall|g: int|
                        0 <= g < i + 1 && retained(
                            (#[trigger] self.groups[g]).branches@,
                            answers[g],
                        ).len() > 0 implies exists|k: int|
                        0 <= k < places.len() && #[trigger] places[k] == g by {
                        if g < i {
                            let k = choose|k: int| 0 <= k < earlier.len() && #[trigger] earlier[k] == g;
                            assert(places[k] == g);
                        } else {
                            assert(places[earlier.len() as int] == g);
                        }
                    }
                }
            }
            i = i + 1;
        }
        proof {
            lemma_protected(is_protected, self.groups@, answers, places, chosen@);
            assert(judged_by(
                is_protected,
                self@,
                verdicts_by_commit(self.groups@, answers),
            ));
        }
        Branches { groups: chosen }
    }

    /// A copy of the groups of the commits for which `keep` says so; `keep`
    /// holds one answer for each group, in the order of the groups.
    fn select(&self, keep: &Vec<bool>, Ghost(wanted): Ghost<spec_fn(Oid) -> bool>) -> (kept:
        Branches)
        requires
            keep.len() == self.groups.len(),
            forall|i: int|
                0 <= i < self.groups.len() ==> keep[i] == wanted((#[trigger] self.groups[i]).id),
        ensures
            kept@ == self@.restrict(Set::new(wanted)),
    {
        proof {
            use_type_invariant(self);
        }
        let mut chosen: Vec<Group> = Vec::new();
        let ghost mut places: Seq<int> = Seq::empty();
        let mut i: usize = 0;
        while i < self.groups.len()
            invariant
                i <= self.groups.len(),
                keep.len() == self.groups.len(),
                forall|i: int|
                    0 <= i < self.groups.len() ==> keep[i] == wanted(
                        (#[trigger] self.groups[i]).id,
                    ),
                climbing(places, i as int),
                chosen.len() == places.len(),
                forall|k: int|
                    0 <= k < places.len() ==> (#[trigger] chosen[k]).id == self.groups[places[k]].id
                        && chosen[k].branches@ == self.groups[places[k]].branches@,
                forall|k: int| 0 <= k < places.len() ==> wanted(self.groups[#[trigger] places[k]].id),
                forall|j: int|
                    0 <= j < i && wanted((#[trigger] self.groups[j]).id) ==> exists|k: int|
                        0 <= k < places.len() && #[trigger] places[k] == j,
            decreases self.groups.len() - i,
        {
            if keep[i] {
                let group = &self.groups[i];
                chosen.push(Group { id: group.id, branches: copy_branches(&group.branches) });
                proof {
                    let earlier = places;
                    places = places.push(i as int);
                    assert forall|j: int|
                        0 <= j < i + 1 && wanted((#[trigger] self.groups[j]).id) implies exists|
                        k: int,
                    | 0 <= k < places.len() && #[trigger] places[k] == j by {
                        if j < i {
                            let k = choose|k: int| 0 <= k < earlier.len() && #[trigger] earlier[k] == j;
                            assert(places[k] == j);
                        } else {
                            assert(places[earlier.len() as int] == j);
                        }
                    }
                }
            }
            i = i + 1;
        }
        proof {
            lemma_picked(self.groups@, places, chosen@, wanted);
        }
        Branches { groups: chosen }
    }
}

impl Clone for Branches {
    fn clone(&self) -> (copy: Self)
        ensures
            copy@ == self@,
    {
        let mut keep: Vec<bool> = Vec::new();
        let mut i: usize = 0;
        while i < self.groups.len()
            invariant
                i <= self.groups.len(),
                keep.len() == i,
                forall|k: int| 0 <= k < i ==> #[trigger] keep[k],
            decreases self.groups.len() - i,
        {
            keep.push(true);
            i = i + 1;
        }
        self.select(&keep, Ghost(|id: Oid| true))
    }
}

/// Some commit of the index rejoins the history of `head` at `commit`: the
/// merge-base of `head` with that commit is `commit`.
pub open spec fn recorded_at<R: Repo>(
    repo: &R,
    index: Map<Oid, Seq<BranchView>>,
    head: Oid,
    commit: Oid,
) -> bool {
    exists|protected: Oid|
        index.contains_key(protected) && #[trigger] repo.merge_base_of(head, protected) == Some(
            commit,
        )
}

/// `protected` is the commit of the index that stands for `commit`: it
/// rejoins the history of `head` at `commit`, and of the commits of the index
/// that do so it is the last in the order of ids.
pub open spec fn anchors<R: Repo>(
    repo: &R,
    index: Map<Oid, Seq<BranchView>>,
    head: Oid,
    commit: Oid,
    protected: Oid,
) -> bool {
    &&& index.contains_key(protected)
    &&& repo.merge_base_of(head, protected) == Some(commit)
    &&& forall|other: Oid|
        index.contains_key(other) && #[trigger] repo.merge_base_of(head, other) == Some(commit)
            ==> other == protected || oid_before(other, protected)
}

/// The history of `head` meets the history of a commit of the index: one of
/// the commits of `ancestry(head)` is the merge-base of `head` with a commit
/// of the index.
pub open spec fn has_protected_base<R: Repo>(
    repo: &R,
    index: Map<Oid, Seq<BranchView>>,
    head: Oid,
) -> bool {
    exists|n: int|
        0 <= n < repo.ancestry(head)@.len() && recorded_at(
            repo,
            index,
            head,
            #[trigger] repo.ancestry(head)@[n],
        )
}

/// `branch` is the protected base of `head`: at the nearest commit of
/// `ancestry(head)` that is such a merge-base, it is the first branch of the
/// commit of the index that stands for that merge-base.
pub open spec fn is_protected_base<R: Repo>(
    repo: &R,
    index: Map<Oid, Seq<BranchView>>,
    head: Oid,
    branch: BranchView,
) -> bool {
    exists|nearest: int, protected: Oid|
        {
            &&& 0 <= nearest < repo.ancestry(head)@.len()
            &&& forall|n: int|
                0 <= n < nearest ==> !recorded_at(
                    repo,
                    index,
                    head,
                    #[trigger] repo.ancestry(head)@[n],
                )
            &&& #[trigger] anchors(repo, index, head, repo.ancestry(head)@[nearest], protected)
            &&& index[protected].len() > 0
            &&& branch == index[protected][0]
        }
}

/// The protected branch on which `head_oid` is built: `protected_branches`
/// holds the protected branches, and the answer is the branch at the nearest
/// commit in the history of `head_oid`, `head_oid` itself included, at which
/// that history meets the history of a protected commit.
///
/// For each commit of the index the repository is asked once for its
/// merge-base with the head. The history of the head is then walked from the
/// head backwards, no further than the first commit that is such a
/// merge-base. Of the branches at the commit that stands for that merge-base
/// the first is returned. `None` says that the walk met no such merge-base.
///
/// Several commits of the index may have one and the same merge-base with
/// the head. Then the commit with the greatest id stands for it, also
/// where another of them is the merge-base itself; the branches of the
/// others are passed over. A caller who needs another choice has to make it
/// before calling, by leaving the other commits out of the index.
pub fn find_protected_base<'b, R: Repo>(
    repo: &R,
    protected_branches: &'b Branches,
    head_oid: Oid,
) -> (base: Option<&'b Branch>)
    ensures
        match base {
            Some(branch) => is_protected_base(repo, protected_branches@, head_oid, branch@),
            None => !has_protected_base(repo, protected_branches@, head_oid),
        },
{
    proof {
        use_type_invariant(protected_branches);
    }
    let groups = &protected_branches.groups;
    let mut merge_bases: Vec<Option<Oid>> = Vec::new();
    let mut i: usize = 0;
    while i < groups.len()
        invariant
            i <= groups.len(),
            merge_bases.len() == i,
            forall|k: int|
                0 <= k < i ==> #[trigger] merge_bases[k] == repo.merge_base_of(head_oid, groups[k].id),
        decreases groups.len() - i,
    {
        merge_bases.push(repo.merge_base(head_oid, groups[i].id));
        i = i + 1;
    }
    let ghost history = repo.ancestry(head_oid)@;
    let ghost index = protected_branches@;
    proof {
        assert forall|commit: Oid|
            recorded_at(repo, index, head_oid, commit) == is_recorded(merge_bases@, commit) by {
            if recorded_at(repo, index, head_oid, commit) {
                let protected = choose|protected: Oid|
                    index.contains_key(protected) && #[trigger] repo.merge_base_of(
                        head_oid,
                        protected,
                    ) == Some(commit);
                let k = slot_of(groups@, protected);
                assert(merge_bases@[k] == Some(commit));
            }
            if is_recorded(merge_bases@, commit) {
                let k = choose|k: int|
                    0 <= k < merge_bases@.len() && #[trigger] merge_bases@[k] == Some(commit);
                lemma_slot(groups@, k);
            }
        }
    }
    let mut walk = repo.commits_from(head_oid);
    match nearest_record(&mut walk, merge_bases.as_slice()) {
        Some(place) => {
            proof {
                let nearest = choose|nearest: int|
                    {
                        &&& 0 <= nearest < history.len()
                        &&& forall|n: int|
                            0 <= n < nearest ==> !is_recorded(merge_bases@, #[trigger] history[n])
                        &&& #[trigger] is_latest_record(
                            merge_bases@,
                            history[nearest],
                            place as int,
                        )
                    };
                let commit = history[nearest];
                let protected = groups@[place as int].id;
                lemma_slot(groups@, place as int);
                assert forall|other: Oid|
                    index.contains_key(other) && #[trigger] repo.merge_base_of(head_oid, other)
                        == Some(commit) implies other == protected || oid_before(
                    other,
                    protected,
                ) by {
                    let k = slot_of(groups@, other);
                    assert(merge_bases@[k] == Some(commit));
                }
                assert(anchors(repo, index, head_oid, history[nearest], protected));
            }
            Some(&groups[place].branches[0])
        },
        None => None,
    }
}

} // verus!
