use std::cell::Cell;
use std::collections::VecDeque;
use std::rc::Rc;

use git2::Oid;
use git_branches::record::{latest_record, nearest_record};
use git_branches::{find_protected_base, Branch, Branches, Repo};

fn oid(n: u8) -> Oid {
    Oid::from_bytes(&[n; 20]).unwrap()
}

fn branch(id: Oid, name: &str) -> Branch {
    Branch { id, name: name.to_string() }
}

fn index_of(branches: Vec<Branch>) -> Branches {
    Branches::new(branches.into_iter())
}

fn ids(index: &Branches) -> Vec<Oid> {
    index.oids().collect()
}

fn all_names(index: &Branches) -> Vec<String> {
    let mut found = Vec::new();
    for (_, branches) in index.iter() {
        found.extend(branches.iter().map(|b| b.name.clone()));
    }
    found
}

fn base_name(found: Option<&Branch>) -> Option<&str> {
    found.map(|b| b.name.as_str())
}

/// A history held in memory: each commit with its parents. It counts the
/// questions it is asked.
struct History {
    commits: Vec<(Oid, Vec<Oid>)>,
    merge_bases_asked: Cell<usize>,
    handed_out: Rc<Cell<usize>>,
}

struct Walk {
    queue: VecDeque<Oid>,
    handed_out: Rc<Cell<usize>>,
}

impl Walk {
    fn over(commits: &[Oid]) -> Walk {
        Walk { queue: commits.iter().copied().collect(), handed_out: Rc::new(Cell::new(0)) }
    }

    fn pending(&self) -> Vec<Oid> {
        self.queue.iter().copied().collect()
    }
}

impl Iterator for Walk {
    type Item = Oid;

    fn next(&mut self) -> Option<Oid> {
        let next = self.queue.pop_front();
        if next.is_some() {
            self.handed_out.set(self.handed_out.get() + 1);
        }
        next
    }
}

impl History {
    fn new(commits: Vec<(Oid, Vec<Oid>)>) -> Self {
        History { commits, merge_bases_asked: Cell::new(0), handed_out: Rc::new(Cell::new(0)) }
    }

    fn parents(&self, commit: Oid) -> Option<&Vec<Oid>> {
        self.commits.iter().find(|(id, _)| *id == commit).map(|(_, parents)| parents)
    }

    /// `start` and what it is built on, nearest first, each commit once.
    fn reachable(&self, start: Oid) -> Vec<Oid> {
        let mut seen = Vec::new();
        let mut queue = VecDeque::new();
        if self.parents(start).is_some() {
            queue.push_back(start);
        }
        while let Some(commit) = queue.pop_front() {
            if seen.contains(&commit) {
                continue;
            }
            seen.push(commit);
            for parent in self.parents(commit).unwrap() {
                queue.push_back(*parent);
            }
        }
        seen
    }
}

impl Repo for History {
    type Walk<'a> = Walk;

    fn merge_base_of(&self, one: Oid, two: Oid) -> Option<Oid> {
        let others = self.reachable(two);
        self.reachable(one).into_iter().find(|commit| others.contains(commit))
    }

    fn ancestry(&self, head: Oid) -> Vec<Oid> {
        self.reachable(head)
    }

    fn merge_base(&self, one: Oid, two: Oid) -> Option<Oid> {
        self.merge_bases_asked.set(self.merge_bases_asked.get() + 1);
        self.merge_base_of(one, two)
    }

    fn commits_from(&self, head: Oid) -> Walk {
        Walk { queue: self.reachable(head).into(), handed_out: self.handed_out.clone() }
    }
}

const A: u8 = 10;
const B: u8 = 20;
const C: u8 = 30;
const D: u8 = 40;
const X: u8 = 50;
const Y: u8 = 60;
const U: u8 = 70;
const V: u8 = 80;

/// A, B, C, D in a line, A the oldest; X parts from the line at A, Y at B;
/// U and V are a history of their own.
fn history() -> History {
    History::new(vec![
        (oid(A), vec![]),
        (oid(B), vec![oid(A)]),
        (oid(C), vec![oid(B)]),
        (oid(D), vec![oid(C)]),
        (oid(X), vec![oid(A)]),
        (oid(Y), vec![oid(B)]),
        (oid(U), vec![]),
        (oid(V), vec![oid(U)]),
    ])
}

fn everywhere() -> Branches {
    index_of(vec![
        branch(oid(A), "main"),
        branch(oid(B), "b"),
        branch(oid(C), "feat"),
        branch(oid(D), "d"),
        branch(oid(X), "side"),
        branch(oid(Y), "fork"),
        branch(oid(U), "other"),
        branch(oid(V), "other-tip"),
        branch(oid(99), "lost"),
    ])
}

#[test]
fn the_double_finds_nearest_common_ancestors() {
    let history = history();
    assert_eq!(history.merge_base_of(oid(D), oid(X)), Some(oid(A)));
    assert_eq!(history.merge_base_of(oid(D), oid(Y)), Some(oid(B)));
    assert_eq!(history.merge_base_of(oid(C), oid(D)), Some(oid(C)));
    assert_eq!(history.merge_base_of(oid(D), oid(D)), Some(oid(D)));
    assert_eq!(history.merge_base_of(oid(D), oid(V)), None);
    assert_eq!(history.merge_base_of(oid(D), oid(99)), None);
    assert_eq!(history.ancestry(oid(D)), vec![oid(D), oid(C), oid(B), oid(A)]);
}

#[test]
fn protected_base_of_a_line_is_the_protected_root() {
    let history = history();
    let protected = index_of(vec![branch(oid(A), "main"), branch(oid(C), "feat")])
        .protected(|name: &str| name == "main");
    assert_eq!(base_name(find_protected_base(&history, &protected, oid(D))), Some("main"));
}

#[test]
fn on_path_of_a_line_holds_both_branches() {
    let history = history();
    let index = index_of(vec![branch(oid(A), "main"), branch(oid(C), "feat")]);
    let kept = index.branch(&history, oid(A), oid(D));
    assert_eq!(all_names(&kept), vec!["main", "feat"]);
}

#[test]
fn dependents_of_a_later_base_drop_the_root() {
    let history = history();
    let index = index_of(vec![branch(oid(A), "main"), branch(oid(C), "feat")]);
    let kept = index.dependents(&history, oid(B), oid(D));
    assert_eq!(all_names(&kept), vec!["feat"]);
    assert!(!kept.contains_oid(oid(A)));
}

#[test]
fn dependents_drop_the_sibling_that_parted_at_the_base() {
    let history = history();
    let index = index_of(vec![
        branch(oid(A), "main"),
        branch(oid(C), "feat"),
        branch(oid(X), "side"),
    ]);
    let kept = index.dependents(&history, oid(A), oid(D));
    assert!(!kept.contains_oid(oid(X)));
    assert_eq!(all_names(&kept), vec!["main", "feat"]);
}

#[test]
fn dependents_keep_what_parted_above_the_base() {
    let history = history();
    let index = everywhere();
    let kept = index.dependents(&history, oid(A), oid(D));
    assert_eq!(ids(&kept), vec![oid(A), oid(B), oid(C), oid(D), oid(Y)]);
    let on_path = index.branch(&history, oid(A), oid(D));
    assert_eq!(ids(&on_path), vec![oid(A), oid(B), oid(C), oid(D)]);
}

#[test]
fn dependents_keep_the_base_and_what_lies_beyond_the_head() {
    let history = history();
    let index = everywhere();
    let kept = index.dependents(&history, oid(B), oid(C));
    assert_eq!(ids(&kept), vec![oid(B), oid(C), oid(D)]);
    let on_path = index.branch(&history, oid(B), oid(C));
    assert_eq!(ids(&on_path), vec![oid(B), oid(C)]);
}

#[test]
fn filters_keep_groups_whole() {
    let history = history();
    let index = index_of(vec![
        branch(oid(C), "one"),
        branch(oid(X), "side"),
        branch(oid(C), "two"),
        branch(oid(C), "three"),
    ]);
    let expected = vec!["one", "two", "three"];
    assert_eq!(all_names(&index.dependents(&history, oid(A), oid(D))), expected);
    assert_eq!(all_names(&index.branch(&history, oid(A), oid(D))), expected);
}

#[test]
fn unrelated_and_unknown_commits_are_left_out() {
    let history = history();
    let index = everywhere();
    for kept in [
        index.dependents(&history, oid(A), oid(D)),
        index.branch(&history, oid(A), oid(D)),
    ] {
        assert!(!kept.contains_oid(oid(U)));
        assert!(!kept.contains_oid(oid(V)));
        assert!(!kept.contains_oid(oid(99)));
    }
}

#[test]
fn unknown_base_or_head_leaves_nothing_on_the_path() {
    let history = history();
    let index = everywhere();
    assert!(index.branch(&history, oid(99), oid(D)).is_empty());
    assert!(index.branch(&history, oid(A), oid(99)).is_empty());
    assert!(index.dependents(&history, oid(99), oid(D)).is_empty());
    // the head is only asked about siblings: without it every descendant stays
    let kept = index.dependents(&history, oid(A), oid(99));
    assert_eq!(ids(&kept), vec![oid(A), oid(B), oid(C), oid(D), oid(X), oid(Y)]);
}

#[test]
fn filters_of_an_empty_index_are_empty() {
    let history = history();
    let index = index_of(Vec::new());
    assert!(index.dependents(&history, oid(A), oid(D)).is_empty());
    assert!(index.branch(&history, oid(A), oid(D)).is_empty());
    assert_eq!(history.merge_bases_asked.get(), 0);
}

#[test]
fn filters_leave_the_receiver_as_it_was() {
    let history = history();
    let index = everywhere();
    let before = index.all();
    let commits = ids(&index);
    let _ = index.dependents(&history, oid(A), oid(D));
    let _ = index.branch(&history, oid(A), oid(D));
    let _ = index.protected(|name: &str| name == "main");
    assert_eq!(index, before);
    assert_eq!(ids(&index), commits);
    assert!(!index.is_empty());
    for id in commits {
        assert_eq!(index.get(id), before.get(id));
    }
}

#[test]
fn on_path_is_within_dependents() {
    let history = history();
    let index = everywhere();
    let commits = [A, B, C, D, X, Y, U, V, 99];
    for base in commits {
        for head in commits {
            let on_path = index.branch(&history, oid(base), oid(head));
            let dependents = index.dependents(&history, oid(base), oid(head));
            for (id, group) in on_path.iter() {
                assert_eq!(dependents.get(id), Some(group));
            }
        }
    }
}

#[test]
fn dependents_asked_twice_answer_the_same() {
    let history = history();
    let index = everywhere();
    let first = index.dependents(&history, oid(A), oid(D));
    let second = index.dependents(&history, oid(A), oid(D));
    assert_eq!(first, second);
    let again = first.dependents(&history, oid(A), oid(D));
    assert_eq!(again, first);
}

#[test]
fn filters_ask_for_two_merge_bases_for_each_group() {
    let history = history();
    let index = index_of(vec![
        branch(oid(A), "main"),
        branch(oid(C), "feat"),
        branch(oid(C), "feat-2"),
        branch(oid(X), "side"),
    ]);
    let _ = index.dependents(&history, oid(A), oid(D));
    assert_eq!(history.merge_bases_asked.get(), 6);
    let _ = index.branch(&history, oid(A), oid(D));
    assert_eq!(history.merge_bases_asked.get(), 12);
}

#[test]
fn protected_base_on_unrelated_history_is_not_found() {
    let history = history();
    let protected = index_of(vec![branch(oid(V), "other-tip"), branch(oid(U), "other")]);
    assert_eq!(find_protected_base(&history, &protected, oid(D)), None);
}

#[test]
fn protected_base_without_protected_branches_is_not_found() {
    let history = history();
    let protected = index_of(Vec::new());
    assert_eq!(find_protected_base(&history, &protected, oid(D)), None);
}

#[test]
fn protected_base_of_an_unknown_head_is_not_found() {
    let history = history();
    let protected = index_of(vec![branch(oid(A), "main")]);
    assert_eq!(find_protected_base(&history, &protected, oid(99)), None);
}

#[test]
fn protected_base_may_sit_at_the_head() {
    let history = history();
    let protected = index_of(vec![branch(oid(A), "main"), branch(oid(D), "release")]);
    assert_eq!(base_name(find_protected_base(&history, &protected, oid(D))), Some("release"));
}

#[test]
fn protected_base_is_the_nearest_of_several() {
    let history = history();
    let protected = index_of(vec![
        branch(oid(A), "main"),
        branch(oid(B), "stable"),
        branch(oid(U), "other"),
    ]);
    assert_eq!(base_name(find_protected_base(&history, &protected, oid(D))), Some("stable"));
    assert_eq!(base_name(find_protected_base(&history, &protected, oid(A))), Some("stable"));
    assert_eq!(base_name(find_protected_base(&history, &protected, oid(V))), Some("other"));
}

#[test]
fn protected_base_on_a_tie_may_pass_over_the_merge_base_itself() {
    let history = history();
    // X is built on A; B meets the history of X at A too, and B has the
    // greater id
    let protected = index_of(vec![branch(oid(A), "main"), branch(oid(B), "stable")]);
    assert_eq!(base_name(find_protected_base(&history, &protected, oid(X))), Some("stable"));
    let alone = index_of(vec![branch(oid(A), "main")]);
    assert_eq!(base_name(find_protected_base(&history, &alone, oid(X))), Some("main"));
}

#[test]
fn protected_base_is_found_where_the_head_parted_from_it() {
    let history = history();
    // the protected branch has moved on to D; Y parted from its line at B
    let protected = index_of(vec![branch(oid(D), "main")]);
    assert_eq!(base_name(find_protected_base(&history, &protected, oid(Y))), Some("main"));
}

#[test]
fn protected_base_is_the_first_branch_of_its_group() {
    let history = history();
    let protected = index_of(vec![
        branch(oid(A), "main"),
        branch(oid(A), "trunk"),
        branch(oid(A), "default"),
    ]);
    assert_eq!(base_name(find_protected_base(&history, &protected, oid(D))), Some("main"));
}

#[test]
fn protected_base_goes_to_the_greatest_id_on_a_tie() {
    let history = history();
    // D and C both meet the history of Y at B
    let protected = index_of(vec![branch(oid(D), "tip"), branch(oid(C), "feat")]);
    assert_eq!(base_name(find_protected_base(&history, &protected, oid(Y))), Some("tip"));
    let reversed = index_of(vec![branch(oid(C), "feat"), branch(oid(D), "tip")]);
    assert_eq!(base_name(find_protected_base(&history, &reversed, oid(Y))), Some("tip"));
}

#[test]
fn protected_base_asks_once_for_each_protected_commit() {
    let history = history();
    let protected = index_of(vec![
        branch(oid(A), "main"),
        branch(oid(A), "trunk"),
        branch(oid(B), "stable"),
        branch(oid(U), "other"),
    ]);
    let _ = find_protected_base(&history, &protected, oid(D));
    assert_eq!(history.merge_bases_asked.get(), 3);
}

#[test]
fn protected_base_walks_no_further_than_the_match() {
    let history = history();
    let protected = index_of(vec![branch(oid(C), "feat"), branch(oid(A), "main")]);
    assert_eq!(base_name(find_protected_base(&history, &protected, oid(D))), Some("feat"));
    assert_eq!(history.handed_out.get(), 2);
}

#[test]
fn protected_base_walks_to_the_end_without_a_match() {
    let history = history();
    let protected = index_of(vec![branch(oid(U), "other")]);
    assert_eq!(find_protected_base(&history, &protected, oid(D)), None);
    assert_eq!(history.handed_out.get(), 4);
}

#[test]
fn walks_start_afresh() {
    let history = history();
    let protected = index_of(vec![branch(oid(A), "main")]);
    assert_eq!(base_name(find_protected_base(&history, &protected, oid(D))), Some("main"));
    assert_eq!(base_name(find_protected_base(&history, &protected, oid(D))), Some("main"));
    assert_eq!(history.handed_out.get(), 8);
}

#[test]
fn latest_record_takes_the_last_place() {
    let recorded = vec![Some(oid(1)), None, Some(oid(1)), Some(oid(2))];
    assert_eq!(latest_record(&recorded, oid(1)), Some(2));
    assert_eq!(latest_record(&recorded, oid(2)), Some(3));
    assert_eq!(latest_record(&recorded, oid(3)), None);
    assert_eq!(latest_record(&[], oid(1)), None);
    assert_eq!(latest_record(&[None, None], oid(1)), None);
    assert_eq!(latest_record(&[Some(oid(1))], oid(1)), Some(0));
}

#[test]
fn nearest_record_stops_at_the_first_recorded_commit() {
    let mut walk = Walk::over(&[oid(4), oid(3), oid(2), oid(1)]);
    let recorded = vec![Some(oid(2)), None, Some(oid(1)), Some(oid(2)), Some(oid(9))];
    assert_eq!(nearest_record(&mut walk, &recorded), Some(3));
    assert_eq!(walk.pending(), vec![oid(1)]);
    assert_eq!(walk.handed_out.get(), 3);
    assert_eq!(nearest_record(&mut walk, &recorded), Some(2));
    assert!(walk.pending().is_empty());
    assert_eq!(nearest_record(&mut walk, &recorded), None);
}

#[test]
fn nearest_record_exhausts_a_walk_without_recorded_commits() {
    let mut walk = Walk::over(&[oid(4), oid(3), oid(2), oid(1)]);
    assert_eq!(nearest_record(&mut walk, &[Some(oid(7)), None]), None);
    assert!(walk.pending().is_empty());
    assert_eq!(walk.handed_out.get(), 4);
    let mut again = Walk::over(&[oid(4), oid(3)]);
    assert_eq!(nearest_record(&mut again, &[]), None);
    let mut nothing = Walk::over(&[]);
    assert_eq!(nearest_record(&mut nothing, &[Some(oid(4))]), None);
}
