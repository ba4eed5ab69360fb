use split_compare::model::{CompareSummary, EntryKind, EntryMeta};

#[test]
fn test_compare_summary_default() {
    let summary = CompareSummary::default();
    assert_eq!(summary.total_left, 0);
    assert_eq!(summary.same, 0);
}

#[test]
fn duplicate_keeps_every_field() {
    let meta = EntryMeta {
        kind: EntryKind::Symlink,
        size: 1024,
        modified: Some(1700000000000),
        symlink_target: Some("target".to_string()),
    };
    let copy = meta.duplicate();
    assert_eq!(copy.kind, EntryKind::Symlink);
    assert_eq!(copy.size, 1024);
    assert_eq!(copy.modified, Some(1700000000000));
    assert_eq!(copy.symlink_target.as_deref(), Some("target"));
}
