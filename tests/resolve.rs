use std::sync::atomic::AtomicBool;

use split_compare::model::EntryKind;
use split_compare::resolve::{resolve_pair, resolve_trees, tree_size, DirNode, DirTree, Resolution};

fn leaf(name: &str, size: u64) -> DirNode {
    DirNode { name: name.to_string(), kind: EntryKind::File, size, subtree: DirTree { children: vec![] } }
}

fn dir(name: &str, children: Vec<DirNode>) -> DirNode {
    DirNode { name: name.to_string(), kind: EntryKind::Dir, size: 4096, subtree: DirTree { children } }
}

fn sample(inner_size: u64) -> DirTree {
    DirTree {
        children: vec![leaf("a.txt", 10), dir("sub", vec![leaf("b.bin", inner_size), dir("empty", vec![])])],
    }
}

#[test]
fn identical_subtrees_are_equal_with_left_file_sizes() {
    assert_eq!(resolve_trees(&sample(5), &sample(5)), (true, 15));
}

#[test]
fn one_file_size_difference_makes_pair_unequal() {
    let (is_equal, total) = resolve_trees(&sample(5), &sample(6));
    assert!(!is_equal);
    assert_eq!(total, 15);
}

#[test]
fn names_compare_case_insensitively() {
    let left = DirTree { children: vec![leaf("A.TXT", 1)] };
    let right = DirTree { children: vec![leaf("a.txt", 1)] };
    assert_eq!(resolve_trees(&left, &right), (true, 1));
}

#[test]
fn missing_directory_is_still_counted_on_the_left() {
    let left = DirTree { children: vec![dir("only", vec![leaf("x", 7)]), leaf("y", 1)] };
    let right = DirTree { children: vec![leaf("y", 1)] };
    assert_eq!(resolve_trees(&left, &right), (false, 8));
    let swapped_kind = DirTree { children: vec![leaf("only", 7), leaf("y", 1)] };
    assert_eq!(resolve_trees(&left, &swapped_kind), (false, 8));
}

#[test]
fn extra_name_on_the_right_makes_pair_unequal() {
    let left = DirTree { children: vec![leaf("y", 1)] };
    let right = DirTree { children: vec![leaf("y", 1), leaf("z", 1)] };
    assert_eq!(resolve_trees(&left, &right), (false, 1));
}

#[test]
fn cancelled_resolution_reports_no_result() {
    let cancel = AtomicBool::new(true);
    match resolve_pair(&sample(5), &sample(5), &cancel) {
        Resolution::Cancelled { partial_size } => assert!(partial_size <= 15),
        Resolution::Resolved { .. } => panic!("expected cancellation"),
    }
    let go = AtomicBool::new(false);
    match resolve_pair(&sample(5), &sample(5), &go) {
        Resolution::Resolved { is_equal, total_size } => assert_eq!((is_equal, total_size), (true, 15)),
        Resolution::Cancelled { .. } => panic!("not cancelled"),
    }
}

#[test]
fn tree_size_reports_overflow() {
    assert_eq!(tree_size(&sample(5)), Some(15));
    let huge = DirTree { children: vec![leaf("a", u64::MAX), leaf("b", 1)] };
    assert_eq!(tree_size(&huge), None);
}
