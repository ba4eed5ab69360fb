use std::sync::atomic::AtomicBool;

use split_compare::compare::{compare, compare_scans, CompareResult};
use split_compare::ignore::IgnoreRules;
use split_compare::model::{CompareMode, DiffKind, EntryKind, EntryMeta};
use split_compare::scan::{ScanResult, WalkEntry, WalkMeta};

fn make_scan(entries: Vec<(&str, EntryMeta)>) -> ScanResult {
    let rules = IgnoreRules::new(&[]);
    let mut scan = ScanResult::new();
    for (path, meta) in entries {
        scan.record(
            &rules,
            WalkEntry {
                rel_path: path.to_string(),
                is_dir: meta.kind == EntryKind::Dir,
                is_symlink: meta.kind == EntryKind::Symlink,
                metadata: Ok(WalkMeta { size: meta.size, modified: meta.modified }),
                symlink_target: meta.symlink_target.clone(),
            },
        );
    }
    scan
}

fn file_meta(size: u64, mtime: u64) -> EntryMeta {
    EntryMeta { kind: EntryKind::File, size, modified: Some(mtime), symlink_target: None }
}

fn dir_meta() -> EntryMeta {
    EntryMeta { kind: EntryKind::Dir, size: 0, modified: Some(1000), symlink_target: None }
}

fn no_cancel() -> AtomicBool {
    AtomicBool::new(false)
}

fn run(left: &ScanResult, right: &ScanResult, mode: CompareMode) -> CompareResult {
    let cancel = no_cancel();
    compare(left, right, mode, &cancel).unwrap()
}

#[test]
fn test_identical_files() {
    let left = make_scan(vec![("file.txt", file_meta(100, 1000))]);
    let right = make_scan(vec![("file.txt", file_meta(100, 1000))]);
    let result = run(&left, &right, CompareMode::Smart);
    assert_eq!(result.summary.same, 1);
    assert_eq!(result.diffs[0].diff_kind, DiffKind::Same);
}

#[test]
fn test_only_left() {
    let left = make_scan(vec![("file.txt", file_meta(100, 1000))]);
    let right = make_scan(vec![]);
    let result = run(&left, &right, CompareMode::Smart);
    assert_eq!(result.summary.only_left, 1);
    assert_eq!(result.diffs[0].diff_kind, DiffKind::OnlyLeft);
}

#[test]
fn test_only_right() {
    let left = make_scan(vec![]);
    let right = make_scan(vec![("file.txt", file_meta(100, 1000))]);
    let result = run(&left, &right, CompareMode::Smart);
    assert_eq!(result.summary.only_right, 1);
    assert_eq!(result.diffs[0].diff_kind, DiffKind::OnlyRight);
}

#[test]
fn test_type_mismatch() {
    let left = make_scan(vec![("item", file_meta(100, 1000))]);
    let right = make_scan(vec![("item", dir_meta())]);
    let result = run(&left, &right, CompareMode::Smart);
    assert_eq!(result.summary.type_mismatch, 1);
    assert_eq!(result.diffs[0].diff_kind, DiffKind::TypeMismatch);
}

#[test]
fn test_meta_diff_size() {
    let left = make_scan(vec![("file.txt", file_meta(100, 1000))]);
    let right = make_scan(vec![("file.txt", file_meta(200, 1000))]);
    let result = run(&left, &right, CompareMode::Smart);
    assert_eq!(result.summary.meta_diff, 1);
    assert_eq!(result.diffs[0].diff_kind, DiffKind::MetaDiff);
}

#[test]
fn test_same_size_different_mtime_is_same() {
    let left = make_scan(vec![("file.txt", file_meta(100, 1000))]);
    let right = make_scan(vec![("file.txt", file_meta(100, 2000))]);
    let result = run(&left, &right, CompareMode::Smart);
    assert_eq!(result.summary.same, 1);
    assert_eq!(result.diffs[0].diff_kind, DiffKind::Same);
}

#[test]
fn test_structure_mode_ignores_metadata() {
    let left = make_scan(vec![("file.txt", file_meta(100, 1000))]);
    let right = make_scan(vec![("file.txt", file_meta(200, 2000))]);
    let result = run(&left, &right, CompareMode::Structure);
    assert_eq!(result.summary.same, 1);
    assert_eq!(result.diffs[0].diff_kind, DiffKind::Same);
}

#[test]
fn test_dirs_always_same_in_smart() {
    let left = make_scan(vec![("mydir", dir_meta())]);
    let right_dir =
        EntryMeta { kind: EntryKind::Dir, size: 4096, modified: Some(9999), symlink_target: None };
    let right = make_scan(vec![("mydir", right_dir)]);
    let result = run(&left, &right, CompareMode::Smart);
    assert_eq!(result.summary.same, 1);
}

#[test]
fn test_summary_counts() {
    let left = make_scan(vec![
        ("same.txt", file_meta(100, 1000)),
        ("left_only.txt", file_meta(50, 500)),
        ("changed.txt", file_meta(100, 1000)),
    ]);
    let right = make_scan(vec![
        ("same.txt", file_meta(100, 1000)),
        ("right_only.txt", file_meta(75, 750)),
        ("changed.txt", file_meta(200, 2000)),
    ]);
    let result = run(&left, &right, CompareMode::Smart);
    assert_eq!(result.summary.same, 1);
    assert_eq!(result.summary.only_left, 1);
    assert_eq!(result.summary.only_right, 1);
    assert_eq!(result.summary.meta_diff, 1);
    assert_eq!(result.summary.total_left, 3);
    assert_eq!(result.summary.total_right, 3);
}

#[test]
fn diff_rows_cover_union_once_sorted_case_insensitively() {
    let left = make_scan(vec![
        ("b.txt", file_meta(1, 1)),
        ("Docs", dir_meta()),
        ("Docs/A.md", file_meta(2, 2)),
    ]);
    let right = make_scan(vec![
        ("docs", dir_meta()),
        ("docs/a.md", file_meta(2, 5)),
        ("C.txt", file_meta(3, 3)),
    ]);
    let result = run(&left, &right, CompareMode::Smart);
    let paths: Vec<&str> = result.diffs.iter().map(|d| d.rel_path.as_str()).collect();
    assert_eq!(paths, vec!["b.txt", "C.txt", "Docs", "Docs/A.md"]);
    let kinds: Vec<DiffKind> = result.diffs.iter().map(|d| d.diff_kind).collect();
    assert_eq!(kinds, vec![DiffKind::OnlyLeft, DiffKind::OnlyRight, DiffKind::Same, DiffKind::Same]);
    let s = result.summary;
    assert_eq!(s.only_left + s.only_right + s.type_mismatch + s.same + s.meta_diff + s.errors, 4);
}

#[test]
fn self_comparison_in_smart_mode_is_all_same() {
    let entries = || {
        vec![
            ("a", dir_meta()),
            ("a/x.bin", file_meta(10, 1)),
            ("link", EntryMeta {
                kind: EntryKind::Symlink,
                size: 4,
                modified: None,
                symlink_target: Some("a/x.bin".to_string()),
            }),
        ]
    };
    let scan = make_scan(entries());
    let result = run(&scan, &scan, CompareMode::Smart);
    let s = result.summary;
    assert_eq!((s.only_left, s.only_right, s.type_mismatch, s.meta_diff), (0, 0, 0, 0));
    assert_eq!(s.same, 3);
    assert_eq!(s.same, s.total_left);
}

#[test]
fn structure_mode_never_reports_meta_diff() {
    let left = make_scan(vec![("a.txt", file_meta(1, 1)), ("l", EntryMeta {
        kind: EntryKind::Symlink,
        size: 1,
        modified: None,
        symlink_target: Some("x".to_string()),
    })]);
    let right = make_scan(vec![("a.txt", file_meta(2, 9)), ("l", EntryMeta {
        kind: EntryKind::Symlink,
        size: 1,
        modified: None,
        symlink_target: Some("y".to_string()),
    })]);
    let result = run(&left, &right, CompareMode::Structure);
    assert_eq!(result.summary.meta_diff, 0);
    assert!(result.diffs.iter().all(|d| d.diff_kind != DiffKind::MetaDiff));
    let smart = run(&left, &right, CompareMode::Smart);
    assert_eq!(smart.summary.meta_diff, 2);
}

#[test]
fn file_against_directory_is_type_mismatch_in_structure_mode() {
    let left = make_scan(vec![("item", file_meta(100, 1000))]);
    let right = make_scan(vec![("item", dir_meta())]);
    let result = run(&left, &right, CompareMode::Structure);
    assert_eq!(result.summary.type_mismatch, 1);
    assert_eq!(result.diffs[0].diff_kind, DiffKind::TypeMismatch);
}

#[test]
fn cancelled_compare_returns_no_rows() {
    let left = make_scan(vec![("a", file_meta(1, 1)), ("b", file_meta(1, 1))]);
    let right = make_scan(vec![("a", file_meta(1, 1))]);
    let cancel = AtomicBool::new(true);
    let result = compare(&left, &right, CompareMode::Smart, &cancel);
    match result {
        Err(e) => assert_eq!(e, "Compare cancelled"),
        Ok(_) => panic!("expected cancellation"),
    }
}

#[test]
fn empty_scans_compare_even_with_flag_set() {
    let left = make_scan(vec![]);
    let right = make_scan(vec![]);
    let cancel = AtomicBool::new(true);
    let result = compare(&left, &right, CompareMode::Smart, &cancel).unwrap();
    assert!(result.diffs.is_empty());
}

#[test]
fn compare_of_empty_scans_is_empty() {
    let left = make_scan(vec![]);
    let right = make_scan(vec![]);
    let result = compare_scans(&left, &right, CompareMode::Smart);
    assert!(result.diffs.is_empty());
    assert_eq!(result.summary.total_left, 0);
}

#[test]
fn rows_carry_both_sides_metadata() {
    let left = make_scan(vec![("f", file_meta(7, 70))]);
    let right = make_scan(vec![("F", file_meta(8, 80))]);
    let result = compare_scans(&left, &right, CompareMode::Smart);
    assert_eq!(result.diffs.len(), 1);
    let d = &result.diffs[0];
    assert_eq!(d.rel_path, "f");
    assert_eq!(d.left.as_ref().unwrap().size, 7);
    assert_eq!(d.right.as_ref().unwrap().modified, Some(80));
    assert!(d.error_message.is_none());
}
