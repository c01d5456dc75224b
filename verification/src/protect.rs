//! Protection of branches by name.
//!
//! Which names are protected is decided outside: the index hands each name
//! to a matcher and goes by its verdict. What the index does with the
//! verdicts is stated here for every verdict that a matcher can give.

use crate::repo::{branch_views, Branch, BranchView};
use git2::Oid;
use vstd::prelude::*;

verus! {

/// `verdict` is an answer of `matcher` to the question whether the branch
/// name `name` is protected.
pub open spec fn says<F: Fn(&str) -> bool>(matcher: F, name: Seq<char>, verdict: bool) -> bool {
    exists|text: &str| text@ == name && #[trigger] call_ensures(matcher, (text,), verdict)
}

/// The items that the verdicts keep, in their order: the item at a place is
/// kept where the verdict at that place is `true`. An item without a
/// verdict is not kept.
pub open spec fn retained<T>(items: Seq<T>, verdicts: Seq<bool>) -> Seq<T>
    decreases items.len(),
{
    if items.len() == 0 {
        items
    } else {
        let earlier = retained(items.drop_last(), verdicts);
        if items.len() <= verdicts.len() && verdicts[items.len() - 1] {
            earlier.push(items.last())
        } else {
            earlier
        }
    }
}

/// The verdicts answer for the whole index: each branch of each group has
/// its verdict, and the verdict is one that `matcher` gives on its name.
pub open spec fn judged_by<F: Fn(&str) -> bool>(
    matcher: F,
    index: Map<Oid, Seq<BranchView>>,
    verdicts: Map<Oid, Seq<bool>>,
) -> bool {
    forall|id: Oid| #[trigger]
        index.contains_key(id) ==> {
            &&& verdicts.contains_key(id)
            &&& verdicts[id].len() == index[id].len()
            &&& forall|j: int|
                0 <= j < index[id].len() ==> says(matcher, index[id][j].name, #[trigger] verdicts[id][j])
        }
}

/// What the verdicts leave of an index: in each group the branches that
/// were kept, and no group of which nothing was kept.
pub open spec fn protected_of(
    index: Map<Oid, Seq<BranchView>>,
    verdicts: Map<Oid, Seq<bool>>,
) -> Map<Oid, Seq<BranchView>> {
    Map::new(
        |id: Oid| index.contains_key(id) && retained(index[id], verdicts[id]).len() > 0,
        |id: Oid| retained(index[id], verdicts[id]),
    )
}

/// Every item that was kept stood at a place with the verdict `true`.
pub proof fn lemma_retained_members<T>(items: Seq<T>, verdicts: Seq<bool>)
    ensures
        retained(items, verdicts).len() <= items.len(),
        forall|k: int|
            0 <= k < retained(items, verdicts).len() ==> exists|j: int|
                0 <= j < items.len() && j < verdicts.len() && verdicts[j] && items[j]
                    == #[trigger] retained(items, verdicts)[k],
    decreases items.len(),
{
    if items.len() > 0 {
        let shorter = items.drop_last();
        lemma_retained_members(shorter, verdicts);
        let kept = retained(items, verdicts);
        assert forall|k: int| 0 <= k < kept.len() implies exists|j: int|
            0 <= j < items.len() && j < verdicts.len() && verdicts[j] && items[j] == #[trigger] kept[k] by {
            if k < retained(shorter, verdicts).len() {
                let j = choose|j: int|
                    0 <= j < shorter.len() && j < verdicts.len() && verdicts[j] && shorter[j]
                        == retained(shorter, verdicts)[k];
                assert(items[j] == kept[k]);
            } else {
                assert(items[items.len() - 1] == kept[k]);
            }
        }
    }
}

/// Keeping by verdicts and taking views can be done in either order.
pub proof fn lemma_retained_views(branches: Seq<Branch>, verdicts: Seq<bool>)
    ensures
        branch_views(retained(branches, verdicts)) == retained(branch_views(branches), verdicts),
    decreases branches.len(),
{
    if branches.len() > 0 {
        lemma_retained_views(branches.drop_last(), verdicts);
        assert(branch_views(branches).drop_last() =~= branch_views(branches.drop_last()));
    }
    assert(branch_views(retained(branches, verdicts)) =~= retained(
        branch_views(branches),
        verdicts,
    ));
}

/// Copies of the branches that the verdicts keep, in their order.
pub fn retain_protected(branches: &[Branch], verdicts: &[bool]) -> (kept: Vec<Branch>)
    ensures
        kept@ == retained(branches@, verdicts@),
{
    let mut kept: Vec<Branch> = Vec::new();
    let mut i: usize = 0;
    while i < branches.len()
        invariant
            i <= branches.len(),
            kept@ == retained(branches@.take(i as int), verdicts@),
        decreases branches.len() - i,
    {
        assert(branches@.take(i + 1).drop_last() =~= branches@.take(i as int));
        if i < verdicts.len() && verdicts[i] {
            kept.push(branches[i].clone());
        }
        i = i + 1;
    }
    assert(branches@.take(branches@.len() as int) =~= branches@);
    kept
}

/// Asks the matcher for its verdict on the name of each branch, in order.
pub(crate) fn ask_matcher<F: Fn(&str) -> bool>(is_protected: &F, branches: &[Branch]) -> (verdicts: Vec<
    bool,
>)
    requires
        forall|text: &str| call_requires(*is_protected, (text,)),
    ensures
        verdicts@.len() == branches@.len(),
        forall|j: int|
            0 <= j < branches@.len() ==> says(*is_protected, branches@[j].name@, #[trigger] verdicts@[j]),
{
    let mut verdicts: Vec<bool> = Vec::new();
    let mut i: usize = 0;
    while i < branches.len()
        invariant
            i <= branches.len(),
            verdicts@.len() == i,
            forall|text: &str| call_requires(*is_protected, (text,)),
            forall|j: int|
                0 <= j < i ==> says(*is_protected, branches@[j].name@, #[trigger] verdicts@[j]),
        decreases branches.len() - i,
    {
        let name = branches[i].name.as_str();
        let verdict = is_protected(name);
        verdicts.push(verdict);
        i = i + 1;
    }
    verdicts
}

} // verus!
