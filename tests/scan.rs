use split_compare::ignore::IgnoreRules;
use split_compare::model::EntryKind;
use split_compare::scan::{ScanResult, WalkEntry, WalkMeta};

fn file(path: &str, size: u64) -> WalkEntry {
    WalkEntry {
        rel_path: path.to_string(),
        is_dir: false,
        is_symlink: false,
        metadata: Ok(WalkMeta { size, modified: Some(1000) }),
        symlink_target: None,
    }
}

#[test]
fn keys_are_lowercased_and_originals_keep_case() {
    let rules = IgnoreRules::new(&[]);
    let mut scan = ScanResult::new();
    scan.record(&rules, file("README.md", 5));
    assert!(scan.contains_key("readme.md"));
    assert!(!scan.contains_key("README.md"));
    assert_eq!(scan.original("readme.md").unwrap(), "README.md");
    assert_eq!(scan.get("readme.md").unwrap().size, 5);
    assert_eq!(scan.count(), 1);
}

#[test]
fn root_and_default_noise_are_not_recorded_at_any_depth() {
    let rules = IgnoreRules::new(&[]);
    let mut scan = ScanResult::new();
    assert!(!scan.record(&rules, file("", 0)));
    assert!(!scan.record(&rules, file(".DS_Store", 0)));
    assert!(!scan.record(&rules, file("sub/deeper/.DS_Store", 0)));
    assert!(!scan.record(&rules, file("sub/Thumbs.db", 0)));
    scan.record(&rules, file("keep.txt", 4));
    assert!(!scan.contains_key(".ds_store"));
    assert!(!scan.contains_key("sub/deeper/.ds_store"));
    assert!(scan.contains_key("keep.txt"));
    assert_eq!(scan.len(), 1);
    assert_eq!(scan.count(), 1);
}

#[test]
fn later_entry_with_same_lowercased_path_wins() {
    let rules = IgnoreRules::new(&[]);
    let mut scan = ScanResult::new();
    scan.record(&rules, file("Notes.txt", 1));
    scan.record(&rules, file("notes.TXT", 2));
    assert_eq!(scan.len(), 1);
    assert_eq!(scan.count(), 2);
    assert_eq!(scan.get("notes.txt").unwrap().size, 2);
    assert_eq!(scan.original("notes.txt").unwrap(), "notes.TXT");
}

#[test]
fn metadata_failure_records_error_and_zero_size() {
    let rules = IgnoreRules::new(&[]);
    let mut scan = ScanResult::new();
    scan.record(
        &rules,
        WalkEntry {
            rel_path: "locked".to_string(),
            is_dir: false,
            is_symlink: false,
            metadata: Err("permission denied".to_string()),
            symlink_target: None,
        },
    );
    let meta = scan.get("locked").unwrap();
    assert_eq!(meta.size, 0);
    assert_eq!(meta.modified, None);
    assert_eq!(scan.errors().len(), 1);
    assert_eq!(scan.errors()[0].path, "locked");
    assert_eq!(scan.errors()[0].message, "permission denied");
    scan.record_walk_error("walk failed".to_string());
    assert_eq!(scan.errors()[1].path, "unknown");
}

#[test]
fn symlink_takes_precedence_and_keeps_its_target() {
    let rules = IgnoreRules::new(&[]);
    let mut scan = ScanResult::new();
    scan.record(
        &rules,
        WalkEntry {
            rel_path: "link".to_string(),
            is_dir: true,
            is_symlink: true,
            metadata: Ok(WalkMeta { size: 3, modified: None }),
            symlink_target: Some("../elsewhere".to_string()),
        },
    );
    scan.record(
        &rules,
        WalkEntry {
            rel_path: "dir".to_string(),
            is_dir: true,
            is_symlink: false,
            metadata: Ok(WalkMeta { size: 4096, modified: None }),
            symlink_target: Some("ignored".to_string()),
        },
    );
    let link = scan.get("link").unwrap();
    assert_eq!(link.kind, EntryKind::Symlink);
    assert_eq!(link.symlink_target.as_deref(), Some("../elsewhere"));
    let dir = scan.get("dir").unwrap();
    assert_eq!(dir.kind, EntryKind::Dir);
    assert_eq!(dir.symlink_target, None);
}

#[test]
fn progress_is_due_every_thousandth_entry() {
    let rules = IgnoreRules::new(&[]);
    let mut scan = ScanResult::new();
    let mut due = Vec::new();
    for i in 0..2000 {
        if scan.record(&rules, file(&format!("f{}", i), 1)) {
            due.push(scan.count());
        }
    }
    assert_eq!(due, vec![1000, 2000]);
    assert!(!scan.is_empty());
    assert_eq!(scan.key_at(0), "f0");
    assert_eq!(scan.keys().len(), 2000);
}
