use std::cell::Cell;

use git2::Oid;
use git_branches::protect::retain_protected;
use git_branches::{Branch, Branches};

fn oid(n: u8) -> Oid {
    Oid::from_bytes(&[n; 20]).unwrap()
}

fn branch(id: Oid, name: &str) -> Branch {
    Branch { id, name: name.to_string() }
}

fn index_of(branches: Vec<Branch>) -> Branches {
    Branches::new(branches.into_iter())
}

fn ids(index: &Branches) -> Vec<Oid> {
    index.oids().collect()
}

fn names(branches: &[Branch]) -> Vec<&str> {
    branches.iter().map(|b| b.name.as_str()).collect()
}

fn is_release(name: &str) -> bool {
    name == "main" || name.starts_with("release/")
}

#[test]
fn protected_keeps_the_protected_branches_of_each_group() {
    let (c1, c2, c3) = (oid(1), oid(2), oid(3));
    let index = index_of(vec![
        branch(c1, "main"),
        branch(c1, "topic"),
        branch(c2, "feat"),
        branch(c3, "wip"),
        branch(c3, "release/1"),
        branch(c3, "release/2"),
    ]);
    let kept = index.protected(is_release);
    assert_eq!(ids(&kept), vec![c1, c3]);
    assert_eq!(names(kept.get(c1).unwrap()), vec!["main"]);
    assert_eq!(names(kept.get(c3).unwrap()), vec!["release/1", "release/2"]);
    assert!(kept.get(c2).is_none());
}

#[test]
fn protected_returns_no_unprotected_branch_and_no_empty_group() {
    let mut branches = Vec::new();
    for n in 0..40u8 {
        let name = if n % 3 == 0 { format!("release/{}", n) } else { format!("topic/{}", n) };
        branches.push(branch(oid(n % 10), &name));
    }
    let index = index_of(branches);
    let kept = index.protected(is_release);
    for (id, group) in kept.iter() {
        assert!(!group.is_empty());
        for b in group {
            assert!(is_release(&b.name));
            assert_eq!(b.id, id);
        }
    }
    for (id, group) in index.iter() {
        let expected: Vec<&str> =
            group.iter().map(|b| b.name.as_str()).filter(|n| is_release(n)).collect();
        match kept.get(id) {
            Some(found) => assert_eq!(names(found), expected),
            None => assert!(expected.is_empty()),
        }
    }
}

#[test]
fn protected_with_nothing_protected_is_empty() {
    let index = index_of(vec![branch(oid(1), "a"), branch(oid(2), "b")]);
    let kept = index.protected(|_name: &str| false);
    assert!(kept.is_empty());
}

#[test]
fn protected_with_everything_protected_is_the_index() {
    let index = index_of(vec![branch(oid(2), "b"), branch(oid(1), "a"), branch(oid(2), "c")]);
    let kept = index.protected(|_name: &str| true);
    assert_eq!(kept, index);
}

#[test]
fn protected_of_an_empty_index_is_empty() {
    let index = index_of(Vec::new());
    assert!(index.protected(|_name: &str| true).is_empty());
}

#[test]
fn protected_leaves_the_receiver_as_it_was() {
    let index = index_of(vec![branch(oid(1), "main"), branch(oid(1), "topic")]);
    let before = index.all();
    let _ = index.protected(is_release);
    assert_eq!(index, before);
    assert_eq!(names(index.get(oid(1)).unwrap()), vec!["main", "topic"]);
}

#[test]
fn protected_asks_the_matcher_once_for_each_branch() {
    let index = index_of(vec![
        branch(oid(1), "main"),
        branch(oid(1), "main"),
        branch(oid(2), "topic"),
    ]);
    let asked = Cell::new(0usize);
    let kept = index.protected(|name: &str| {
        asked.set(asked.get() + 1);
        name == "main"
    });
    assert_eq!(asked.get(), 3);
    assert_eq!(names(kept.get(oid(1)).unwrap()), vec!["main", "main"]);
}

#[test]
fn protected_goes_by_each_verdict_as_it_was_given() {
    let index = index_of(vec![branch(oid(1), "a"), branch(oid(1), "a"), branch(oid(1), "a")]);
    let turn = Cell::new(0usize);
    let kept = index.protected(|_name: &str| {
        turn.set(turn.get() + 1);
        turn.get() % 2 == 1
    });
    assert_eq!(kept.get(oid(1)).map(|g| g.len()), Some(2));
}

#[test]
fn retain_protected_keeps_by_place() {
    let branches = vec![branch(oid(1), "a"), branch(oid(1), "b"), branch(oid(1), "c")];
    assert_eq!(names(&retain_protected(&branches, &[true, false, true])), vec!["a", "c"]);
    assert_eq!(names(&retain_protected(&branches, &[false, true, false])), vec!["b"]);
    assert_eq!(names(&retain_protected(&branches, &[true, true, true])), vec!["a", "b", "c"]);
    assert!(retain_protected(&branches, &[false, false, false]).is_empty());
}

#[test]
fn retain_protected_keeps_nothing_without_a_verdict() {
    let branches = vec![branch(oid(1), "a"), branch(oid(1), "b"), branch(oid(1), "c")];
    assert_eq!(names(&retain_protected(&branches, &[true])), vec!["a"]);
    assert!(retain_protected(&branches, &[]).is_empty());
    assert_eq!(names(&retain_protected(&branches, &[false, true, true, true, true])), vec!["b", "c"]);
    assert!(retain_protected(&[], &[true, true]).is_empty());
}
