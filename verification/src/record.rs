//! The record of merge-bases, and the walk that is held against it.
//!
//! To find the protected base of a head, the merge-base of the head with
//! each protected commit is noted down, one entry for each commit, in the
//! order of the commits. The history of the head is then walked until it
//! meets a commit that the record holds.

use crate::relation::is_commit;
use git2::Oid;
use vstd::prelude::*;
use vstd::std_specs::iter::IteratorSpec;

verus! {

/// The record holds `commit` at some place.
pub open spec fn is_recorded(merge_bases: Seq<Option<Oid>>, commit: Oid) -> bool {
    exists|place: int|
        0 <= place < merge_bases.len() && #[trigger] merge_bases[place] == Some(commit)
}

/// `place` is the last place at which the record holds `commit`.
pub open spec fn is_latest_record(merge_bases: Seq<Option<Oid>>, commit: Oid, place: int) -> bool {
    &&& 0 <= place < merge_bases.len()
    &&& merge_bases[place] == Some(commit)
    &&& forall|later: int|
        place < later < merge_bases.len() ==> #[trigger] merge_bases[later] != Some(commit)
}

/// The last place at which the record holds `commit`, if it holds it at all.
pub fn latest_record(merge_bases: &[Option<Oid>], commit: Oid) -> (at: Option<usize>)
    ensures
        match at {
            Some(place) => is_latest_record(merge_bases@, commit, place as int),
            None => !is_recorded(merge_bases@, commit),
        },
{
    let mut place: usize = merge_bases.len();
    while place > 0
        invariant
            place <= merge_bases@.len(),
            forall|later: int|
                place <= later < merge_bases@.len() ==> #[trigger] merge_bases@[later] != Some(
                    commit,
                ),
        decreases place,
    {
        place = place - 1;
        if is_commit(merge_bases[place], commit) {
            return Some(place);
        }
    }
    None
}

/// Takes commits from the walk up to the first that the record holds, and
/// returns the last place at which the record holds that commit. The walk is
/// left where the commit was found: what followed it is still to come.
/// `None` says that the walk came to its end without such a commit.
pub fn nearest_record<W: Iterator<Item = Oid>>(walk: &mut W, merge_bases: &[Option<Oid>]) -> (found:
    Option<usize>)
    requires
        (*old(walk)).obeys_prophetic_iter_laws(),
        (*old(walk)).decrease() is Some,
    ensures
        (*final(walk)).obeys_prophetic_iter_laws(),
        (*final(walk)).decrease() is Some,
        match found {
            Some(place) => exists|nearest: int|
                {
                    &&& 0 <= nearest < (*old(walk)).remaining().len()
                    &&& forall|n: int|
                        0 <= n < nearest ==> !is_recorded(
                            merge_bases@,
                            #[trigger] (*old(walk)).remaining()[n],
                        )
                    &&& #[trigger] is_latest_record(
                        merge_bases@,
                        (*old(walk)).remaining()[nearest],
                        place as int,
                    )
                    &&& (*final(walk)).remaining() == (*old(walk)).remaining().skip(nearest + 1)
                },
            None => {
                &&& forall|n: int|
                    0 <= n < (*old(walk)).remaining().len() ==> !is_recorded(
                        merge_bases@,
                        #[trigger] (*old(walk)).remaining()[n],
                    )
                &&& (*final(walk)).remaining().len() == 0
            },
        },
{
    let ghost history = (*walk).remaining();
    let ghost mut walked: int = 0;
    loop
        invariant
            (*walk).obeys_prophetic_iter_laws(),
            (*walk).decrease() is Some,
            history == (*old(walk)).remaining(),
            0 <= walked <= history.len(),
            (*walk).remaining() == history.skip(walked),
            forall|n: int| 0 <= n < walked ==> !is_recorded(merge_bases@, #[trigger] history[n]),
        decreases (*walk).decrease()->0,
    {
        let commit = match walk.next() {
            Some(commit) => commit,
            None => {
                return None;
            },
        };
        if let Some(place) = latest_record(merge_bases, commit) {
            return Some(place);
        }
        proof {
            walked = walked + 1;
        }
    }
}

} // verus!
