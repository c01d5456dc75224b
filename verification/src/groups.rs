//! How the index is kept: one group for each commit, the groups in
//! ascending order of their commits.

use crate::oid::{
    lemma_oid_before_irreflexive, lemma_oid_before_transitive, oid_before, order_oids, IdOrder,
};
use crate::protect::{
    judged_by, lemma_retained_members, lemma_retained_views, protected_of, retained, says,
};
use crate::repo::{branch_views, Branch, BranchView};
use git2::Oid;
use vstd::prelude::*;

verus! {

/// One commit and the branches that point at it, in the order in which they
/// were supplied.
#[derive(Debug, PartialEq, Eq)]
pub(crate) struct Group {
    pub(crate) id: Oid,
    pub(crate) branches: Vec<Branch>,
}

/// The group holds a branch, and every branch in it points at the group's
/// commit.
pub(crate) open spec fn well_kept(group: Group) -> bool {
    &&& group.branches@.len() > 0
    &&& forall|j: int| 0 <= j < group.branches@.len() ==> (#[trigger] group.branches@[j]).id == group.id
}

/// The groups stand in strictly ascending order of their commits.
pub(crate) open spec fn sorted(groups: Seq<Group>) -> bool {
    forall|i: int, j: int|
        0 <= i < j < groups.len() ==> oid_before((#[trigger] groups[i]).id, (#[trigger] groups[j]).id)
}

/// What the index keeps to: sorted groups, each of them well kept.
pub(crate) open spec fn well_formed(groups: Seq<Group>) -> bool {
    &&& sorted(groups)
    &&& forall|i: int| 0 <= i < groups.len() ==> well_kept(#[trigger] groups[i])
}

/// Some group is the group of `id`.
pub(crate) open spec fn holds(groups: Seq<Group>, id: Oid) -> bool {
    exists|i: int| 0 <= i < groups.len() && (#[trigger] groups[i]).id == id
}

/// The place of the group of `id`.
pub(crate) open spec fn slot_of(groups: Seq<Group>, id: Oid) -> int {
    choose|i: int| 0 <= i < groups.len() && (#[trigger] groups[i]).id == id
}

/// The map that a run of groups stands for.
pub(crate) open spec fn model(groups: Seq<Group>) -> Map<Oid, Seq<BranchView>> {
    Map::new(
        |id: Oid| holds(groups, id),
        |id: Oid| branch_views(groups[slot_of(groups, id)].branches@),
    )
}

/// In sorted groups a commit has one place.
pub(crate) proof fn lemma_slot(groups: Seq<Group>, i: int)
    requires
        sorted(groups),
        0 <= i < groups.len(),
    ensures
        holds(groups, groups[i].id),
        slot_of(groups, groups[i].id) == i,
        model(groups).contains_key(groups[i].id),
        model(groups)[groups[i].id] == branch_views(groups[i].branches@),
{
    let id = groups[i].id;
    let k = slot_of(groups, id);
    if k < i {
        lemma_oid_before_irreflexive(groups[k].id, groups[i].id);
    } else if i < k {
        lemma_oid_before_irreflexive(groups[i].id, groups[k].id);
    }
}

/// Finds the place of `oid` among sorted groups: the place of its group if
/// it has one, else the place at which its group would have to stand.
pub(crate) fn locate(groups: &Vec<Group>, oid: Oid) -> (at: (usize, bool))
    requires
        sorted(groups@),
    ensures
        at.0 <= groups.len(),
        forall|i: int| 0 <= i < at.0 ==> oid_before((#[trigger] groups[i]).id, oid),
        at.1 ==> at.0 < groups.len() && groups[at.0 as int].id == oid,
        forall|i: int|
            at.0 + (if at.1 { 1int } else { 0int }) <= i < groups.len() ==> oid_before(
                oid,
                (#[trigger] groups[i]).id,
            ),
        at.1 == holds(groups@, oid),
{
    let mut low: usize = 0;
    let mut high: usize = groups.len();
    while low < high
        invariant
            sorted(groups@),
            low <= high <= groups.len(),
            forall|i: int| 0 <= i < low ==> oid_before((#[trigger] groups[i]).id, oid),
            forall|i: int| high <= i < groups.len() ==> oid_before(oid, (#[trigger] groups[i]).id),
        decreases high - low,
    {
        let mid = low + (high - low) / 2;
        let middle = groups[mid].id;
        match order_oids(middle, oid) {
            IdOrder::Before => {
                assert forall|i: int| 0 <= i < mid + 1 implies oid_before(
                    (#[trigger] groups[i]).id,
                    oid,
                ) by {
                    if i < mid {
                        lemma_oid_before_transitive(groups[i].id, middle, oid);
                    }
                }
                low = mid + 1;
            },
            IdOrder::After => {
                assert forall|i: int| mid <= i < groups.len() implies oid_before(
                    oid,
                    (#[trigger] groups[i]).id,
                ) by {
                    if mid < i {
                        lemma_oid_before_transitive(oid, middle, groups[i].id);
                    }
                }
                high = mid;
            },
            IdOrder::Same => {
                return (mid, true);
            },
        }
    }
    proof {
        if holds(groups@, oid) {
            let k = slot_of(groups@, oid);
            if k < low {
                lemma_oid_before_irreflexive(groups[k].id, oid);
            } else {
                lemma_oid_before_irreflexive(oid, groups[k].id);
            }
        }
    }
    (low, false)
}

/// Puts `branch` into the group of its commit, as the last member, making
/// the group where the commit has none.
pub(crate) fn insert_branch(groups: &mut Vec<Group>, branch: Branch)
    requires
        well_formed(old(groups)@),
    ensures
        well_formed(final(groups)@),
        model(final(groups)@) == model(old(groups)@).insert(
            branch.id,
            (if model(old(groups)@).contains_key(branch.id) {
                model(old(groups)@)[branch.id]
            } else {
                Seq::empty()
            }).push(branch@),
        ),
{
    let id = branch.id;
    let ghost before = groups@;
    let ghost joined = (if model(before).contains_key(id) {
        model(before)[id]
    } else {
        Seq::empty()
    }).push(branch@);
    let (at, found) = locate(groups, id);
    if found {
        groups[at].branches.push(branch);
        proof {
            let after = groups@;
            lemma_slot(before, at as int);
            assert(branch_views(after[at as int].branches@) =~= joined);
            assert forall|x: Oid| holds(after, x) == holds(before, x) by {
                if holds(after, x) {
                    let k = slot_of(after, x);
                    assert(before[k].id == x);
                }
                if holds(before, x) {
                    let k = slot_of(before, x);
                    assert(after[k].id == x);
                }
            }
            assert forall|x: Oid| model(after).contains_key(x) implies model(after)[x] == model(
                before,
            ).insert(id, joined)[x] by {
                let k = slot_of(after, x);
                lemma_slot(after, k);
                lemma_slot(before, k);
            }
            assert(model(after) =~= model(before).insert(id, joined));
        }
    } else {
        let mut branches = Vec::new();
        branches.push(branch);
        groups.insert(at, Group { id, branches });
        proof {
            let after = groups@;
            assert(branch_views(after[at as int].branches@) =~= joined);
            assert forall|x: Oid| holds(after, x) == (holds(before, x) || x == id) by {
                if holds(after, x) && x != id {
                    let k = slot_of(after, x);
                    if k < at {
                        assert(before[k].id == x);
                    } else {
                        assert(before[k - 1].id == x);
                    }
                }
                if holds(before, x) {
                    let k = slot_of(before, x);
                    if k < at {
                        assert(after[k].id == x);
                    } else {
                        assert(after[k + 1].id == x);
                    }
                }
                if x == id {
                    assert(after[at as int].id == x);
                }
            }
            assert forall|x: Oid| model(after).contains_key(x) implies model(after)[x] == model(
                before,
            ).insert(id, joined)[x] by {
                let k = slot_of(after, x);
                lemma_slot(after, k);
                if k < at {
                    lemma_slot(before, k);
                } else if k > at {
                    lemma_slot(before, k - 1);
                }
            }
            assert(model(after) =~= model(before).insert(id, joined));
        }
    }
}

/// A copy of a run of branches.
pub(crate) fn copy_branches(branches: &Vec<Branch>) -> (copy: Vec<Branch>)
    ensures
        copy@ == branches@,
{
    let mut copy: Vec<Branch> = Vec::new();
    let mut i: usize = 0;
    while i < branches.len()
        invariant
            i <= branches.len(),
            copy@ == branches@.take(i as int),
        decreases branches.len() - i,
    {
        copy.push(branches[i].clone());
        i = i + 1;
    }
    copy
}

/// `places` names places of `groups`, each further on than the one before.
pub(crate) open spec fn climbing(places: Seq<int>, bound: int) -> bool {
    &&& forall|k: int| 0 <= k < places.len() ==> 0 <= #[trigger] places[k] < bound
    &&& forall|k: int, l: int| 0 <= k < l < places.len() ==> #[trigger] places[k] < #[trigger] places[l]
}

/// Groups that hold, in the same order, the commits and branches of chosen
/// groups of a well-formed run are well formed, and stand for the part of
/// the map that the choice names.
pub(crate) proof fn lemma_picked(
    groups: Seq<Group>,
    places: Seq<int>,
    chosen: Seq<Group>,
    wanted: spec_fn(Oid) -> bool,
)
    requires
        well_formed(groups),
        climbing(places, groups.len() as int),
        chosen.len() == places.len(),
        forall|k: int|
            0 <= k < places.len() ==> (#[trigger] chosen[k]).id == groups[places[k]].id
                && chosen[k].branches@ == groups[places[k]].branches@,
        forall|k: int| 0 <= k < places.len() ==> wanted(groups[#[trigger] places[k]].id),
        forall|i: int|
            0 <= i < groups.len() && wanted((#[trigger] groups[i]).id) ==> exists|k: int|
                0 <= k < places.len() && #[trigger] places[k] == i,
    ensures
        well_formed(chosen),
        model(chosen) == model(groups).restrict(Set::new(wanted)),
{
    assert forall|k: int| 0 <= k < chosen.len() implies well_kept(#[trigger] chosen[k]) by {
        assert(well_kept(groups[places[k]]));
    }
    assert(sorted(chosen)) by {
        assert forall|k: int, l: int| 0 <= k < l < chosen.len() implies oid_before(
            (#[trigger] chosen[k]).id,
            (#[trigger] chosen[l]).id,
        ) by {
            assert(places[k] < places[l]);
        }
    }
    let part = model(groups).restrict(Set::new(wanted));
    assert forall|id: Oid| model(chosen).contains_key(id) == part.contains_key(id) by {
        if holds(chosen, id) {
            let k = slot_of(chosen, id);
            lemma_slot(groups, places[k]);
        }
        if holds(groups, id) && wanted(id) {
            let i = slot_of(groups, id);
            let k = choose|k: int| 0 <= k < places.len() && #[trigger] places[k] == i;
            assert(chosen[k].id == id);
        }
    }
    assert forall|id: Oid| model(chosen).contains_key(id) implies model(chosen)[id] == part[id] by {
        let k = slot_of(chosen, id);
        lemma_slot(chosen, k);
        lemma_slot(groups, places[k]);
    }
    assert(model(chosen) =~= part);
}

/// The verdicts on the groups, by commit.
pub(crate) open spec fn verdicts_by_commit(groups: Seq<Group>, answers: Seq<Seq<bool>>) -> Map<Oid, Seq<bool>> {
    Map::new(|id: Oid| holds(groups, id), |id: Oid| answers[slot_of(groups, id)])
}

/// Groups that hold, in the same order, what the verdicts keep of the groups
/// of a well-formed run, the groups left empty passed over, are well formed
/// and stand for what the verdicts leave of the map.
pub(crate) proof fn lemma_protected<F: Fn(&str) -> bool>(
    matcher: F,
    groups: Seq<Group>,
    answers: Seq<Seq<bool>>,
    places: Seq<int>,
    chosen: Seq<Group>,
)
    requires
        well_formed(groups),
        answers.len() == groups.len(),
        forall|i: int|
            0 <= i < groups.len() ==> (#[trigger] answers[i]).len() == groups[i].branches@.len(),
        forall|i: int, j: int|
            0 <= i < groups.len() && 0 <= j < groups[i].branches@.len() ==> says(
                matcher,
                groups[i].branches@[j].name@,
                #[trigger] answers[i][j],
            ),
        climbing(places, groups.len() as int),
        chosen.len() == places.len(),
        forall|k: int|
            0 <= k < places.len() ==> (#[trigger] chosen[k]).id == groups[places[k]].id
                && chosen[k].branches@ == retained(
                groups[places[k]].branches@,
                answers[places[k]],
            ) && chosen[k].branches@.len() > 0,
        forall|i: int|
            0 <= i < groups.len() && retained((#[trigger] groups[i]).branches@, answers[i]).len()
                > 0 ==> exists|k: int| 0 <= k < places.len() && #[trigger] places[k] == i,
    ensures
        well_formed(chosen),
        judged_by(matcher, model(groups), verdicts_by_commit(groups, answers)),
        model(chosen) == protected_of(model(groups), verdicts_by_commit(groups, answers)),
        forall|id: Oid, j: int|
            model(chosen).contains_key(id) && 0 <= j < model(chosen)[id].len() ==> says(
                matcher,
                (#[trigger] model(chosen)[id][j]).name,
                true,
            ),
        forall|id: Oid| #[trigger] model(chosen).contains_key(id) ==> model(chosen)[id].len() > 0,
{
    let verdicts = verdicts_by_commit(groups, answers);
    assert forall|k: int| 0 <= k < chosen.len() implies well_kept(#[trigger] chosen[k]) by {
        let from = groups[places[k]];
        assert(well_kept(from));
        lemma_retained_members(from.branches@, answers[places[k]]);
    }
    assert(sorted(chosen)) by {
        assert forall|k: int, l: int| 0 <= k < l < chosen.len() implies oid_before(
            (#[trigger] chosen[k]).id,
            (#[trigger] chosen[l]).id,
        ) by {
            assert(places[k] < places[l]);
        }
    }
    assert forall|id: Oid| #[trigger] model(groups).contains_key(id) implies {
        &&& verdicts.contains_key(id)
        &&& verdicts[id].len() == model(groups)[id].len()
        &&& forall|j: int|
            0 <= j < model(groups)[id].len() ==> says(
                matcher,
                model(groups)[id][j].name,
                #[trigger] verdicts[id][j],
            )
    } by {
        let i = slot_of(groups, id);
        lemma_slot(groups, i);
        assert forall|j: int| 0 <= j < model(groups)[id].len() implies says(
            matcher,
            model(groups)[id][j].name,
            #[trigger] verdicts[id][j],
        ) by {
            assert(says(matcher, groups[i].branches@[j].name@, answers[i][j]));
        }
    }
    let left = protected_of(model(groups), verdicts);
    assert forall|id: Oid| model(chosen).contains_key(id) == left.contains_key(id) by {
        if holds(chosen, id) {
            let k = slot_of(chosen, id);
            let i = places[k];
            lemma_slot(groups, i);
            lemma_retained_views(groups[i].branches@, answers[i]);
        }
        if left.contains_key(id) {
            let i = slot_of(groups, id);
            lemma_slot(groups, i);
            lemma_retained_views(groups[i].branches@, answers[i]);
            let k = choose|k: int| 0 <= k < places.len() && #[trigger] places[k] == i;
            assert(chosen[k].id == id);
        }
    }
    assert forall|id: Oid| model(chosen).contains_key(id) implies model(chosen)[id] == left[id]
        && model(chosen)[id].len() > 0 && (forall|j: int|
        0 <= j < model(chosen)[id].len() ==> says(
            matcher,
            (#[trigger] model(chosen)[id][j]).name,
            true,
        )) by {
        let k = slot_of(chosen, id);
        lemma_slot(chosen, k);
        let i = places[k];
        lemma_slot(groups, i);
        lemma_retained_views(groups[i].branches@, answers[i]);
        lemma_retained_members(groups[i].branches@, answers[i]);
        assert forall|j: int| 0 <= j < model(chosen)[id].len() implies says(
            matcher,
            (#[trigger] model(chosen)[id][j]).name,
            true,
        ) by {
            let kept = retained(groups[i].branches@, answers[i]);
            let t = choose|t: int|
                0 <= t < groups[i].branches@.len() && t < answers[i].len() && answers[i][t]
                    && groups[i].branches@[t] == kept[j];
            assert(says(matcher, groups[i].branches@[t].name@, answers[i][t]));
        }
    }
    assert(model(chosen) =~= left);
}

} // verus!
