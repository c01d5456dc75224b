//! What the index is given from outside: branches, and a repository that
//! answers questions of ancestry.

use git2::Oid;
use vstd::prelude::*;
use vstd::std_specs::iter::IteratorSpec;

verus! {

/// A branch: a name bound to the commit it points at. Several branches may
/// point at one commit.
#[derive(Debug, PartialEq, Eq)]
pub struct Branch {
    /// The commit that the branch points at.
    pub id: Oid,
    /// The name of the branch.
    pub name: String,
}

/// A branch as the contracts see it: its commit and the characters of its
/// name.
pub struct BranchView {
    pub id: Oid,
    pub name: Seq<char>,
}

impl View for Branch {
    type V = BranchView;

    open spec fn view(&self) -> BranchView {
        BranchView { id: self.id, name: self.name@ }
    }
}

impl Clone for Branch {
    fn clone(&self) -> (copy: Self)
        ensures
            copy == *self,
    {
        Branch { id: self.id, name: self.name.clone() }
    }
}

/// The views of a run of branches, in the same order.
pub open spec fn branch_views(branches: Seq<Branch>) -> Seq<BranchView> {
    branches.map_values(|b: Branch| b@)
}

/// A repository, as far as the index consults it.
///
/// The index looks at one snapshot of the history, so what a repository
/// answers must be a function of the question: `merge_base_of` and
/// `ancestry` name the answers, and the two methods that do the work return
/// what those name. An implementation written outside verified code may
/// define `merge_base_of` as `merge_base`, and `ancestry` as the commits of
/// `commits_from` collected into a list.
pub trait Repo {
    /// The walk that `commits_from` starts; it may borrow from the
    /// repository.
    type Walk<'a>: Iterator<Item = Oid> where Self: 'a;

    /// The nearest common ancestor of two commits; `None` where they share
    /// no history or one of them is unknown.
    spec fn merge_base_of(&self, one: Oid, two: Oid) -> Option<Oid>;

    /// The commit `head` followed by the commits it is built on, nearest
    /// first.
    spec fn ancestry(&self, head: Oid) -> Vec<Oid>;

    /// Computes the nearest common ancestor of `one` and `two`.
    fn merge_base(&self, one: Oid, two: Oid) -> (base: Option<Oid>)
        ensures
            base == self.merge_base_of(one, two),
    ;

    /// Starts a fresh walk over `head` and its ancestors. Walks do not share
    /// state: each begins at `head`. A walk hands out its commits on demand,
    /// the commits of `ancestry(head)` in their order, and then ends.
    fn commits_from<'a>(&'a self, head: Oid) -> (walk: Self::Walk<'a>)
        ensures
            walk.obeys_prophetic_iter_laws(),
            walk.decrease() is Some,
            walk.remaining() == self.ancestry(head)@,
    ;
}

} // verus!
