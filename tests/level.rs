use split_compare::cache::DirCache;
use split_compare::ignore::IgnoreRules;
use split_compare::level::{
    collect_entries, compare_directory_impl, listing_of, pending_dirs, BrowseEntry, RawDirEntry,
    RawMeta,
};
use split_compare::model::{CompareStatus, EntryKind};
use split_compare::resolve::{record_resolution, resolve_trees, DirNode, DirTree};

fn raw(name: &str, is_dir: bool, len: u64) -> RawDirEntry {
    RawDirEntry {
        name: name.to_string(),
        is_symlink: false,
        type_is_dir: is_dir,
        metadata: Some(RawMeta { is_dir, len, modified: Some(42) }),
    }
}

fn entry(name: &str, kind: EntryKind, size: u64) -> BrowseEntry {
    BrowseEntry { name: name.to_string(), kind, size, modified: Some(1) }
}

#[test]
fn listing_puts_directories_first_then_names_case_insensitively() {
    let rules = IgnoreRules::new(&[]);
    let listing = listing_of(
        &rules,
        &vec![raw("b.txt", false, 1), raw("Zeta", true, 0), raw("A.txt", false, 2), raw("alpha", true, 0)],
    );
    let names: Vec<&str> = listing.iter().map(|e| e.name.as_str()).collect();
    assert_eq!(names, vec!["alpha", "Zeta", "A.txt", "b.txt"]);
    assert_eq!(listing[2].size, 2);
    assert_eq!(listing[2].modified, Some(42));
}

#[test]
fn listing_drops_default_noise_and_classifies_entries() {
    let rules = IgnoreRules::new(&[]);
    let entries = vec![
        raw(".DS_Store", false, 6),
        raw("keep", false, 1),
        RawDirEntry { name: "link".to_string(), is_symlink: true, type_is_dir: false, metadata: None },
        RawDirEntry { name: "broken".to_string(), is_symlink: false, type_is_dir: true, metadata: None },
    ];
    let listing = listing_of(&rules, &entries);
    let names: Vec<&str> = listing.iter().map(|e| e.name.as_str()).collect();
    assert_eq!(names, vec!["broken", "keep", "link"]);
    assert_eq!(listing[0].kind, EntryKind::Dir);
    assert_eq!(listing[0].size, 0);
    assert_eq!(listing[2].kind, EntryKind::Symlink);
    let collected = collect_entries(&rules, &entries);
    assert_eq!(collected.len(), 3);
    assert_eq!(collected[0].name, "keep");
    assert_eq!(collected[0].modified, None);
}

#[test]
fn level_rows_classify_each_name_once() {
    let left = vec![
        entry("Same.txt", EntryKind::File, 5),
        entry("changed", EntryKind::File, 1),
        entry("mixed", EntryKind::File, 1),
        entry("onlyl", EntryKind::File, 1),
        entry("Sub", EntryKind::Dir, 0),
    ];
    let right = vec![
        entry("same.TXT", EntryKind::File, 5),
        entry("changed", EntryKind::File, 2),
        entry("mixed", EntryKind::Dir, 0),
        entry("onlyr", EntryKind::Dir, 0),
        entry("sub", EntryKind::Dir, 0),
    ];
    let cache = DirCache::new();
    let (rows, summary) = compare_directory_impl("/l", "/r", &left, &right, &cache);
    let got: Vec<(&str, CompareStatus)> = rows.iter().map(|r| (r.name.as_str(), r.status)).collect();
    assert_eq!(
        got,
        vec![
            ("onlyr", CompareStatus::OnlyRight),
            ("Sub", CompareStatus::Pending),
            ("changed", CompareStatus::Modified),
            ("mixed", CompareStatus::TypeMismatch),
            ("onlyl", CompareStatus::OnlyLeft),
            ("Same.txt", CompareStatus::Same),
        ]
    );
    assert_eq!(summary.total_left, 5);
    assert_eq!(summary.total_right, 5);
    assert_eq!(summary.same, 1);
    assert_eq!(summary.meta_diff, 1);
    assert_eq!(summary.type_mismatch, 1);
    assert_eq!(summary.only_left, 1);
    assert_eq!(summary.only_right, 1);
    assert_eq!(rows[2].left_size, Some(1));
    assert_eq!(rows[2].right_size, Some(2));
}

#[test]
fn resolved_pair_is_served_from_cache_until_cleared() {
    let left = vec![entry("Sub", EntryKind::Dir, 0)];
    let right = vec![entry("sub", EntryKind::Dir, 0)];
    let mut cache = DirCache::new();

    let pending = pending_dirs("/l", "/r", &left, &right);
    assert_eq!(pending.len(), 1);
    assert_eq!(pending[0].left_path, "/l/Sub");
    assert_eq!(pending[0].right_path, "/r/sub");

    let tree = DirTree {
        children: vec![DirNode { name: "x".to_string(), kind: EntryKind::File, size: 9, subtree: DirTree { children: vec![] } }],
    };
    let (is_equal, total) = resolve_trees(&tree, &tree);
    let event = record_resolution(&mut cache, &pending[0], "/l", "/r", is_equal, total);
    assert_eq!(event.status, CompareStatus::Same);
    assert_eq!(event.total_size, 9);
    assert_eq!(event.name, "Sub");

    let (rows, summary) = compare_directory_impl("/l", "/r", &left, &right, &cache);
    assert_eq!(rows[0].status, CompareStatus::Same);
    assert_eq!(rows[0].dir_info.unwrap().total_size, 9);
    assert_eq!(summary.same, 1);
    let again = pending_dirs("/l", "/r", &left, &right);
    assert_eq!(cache.get(&again[0].left_path, &again[0].right_path), Some((CompareStatus::Same, 9)));

    cache.clear();
    let (rows, summary) = compare_directory_impl("/l", "/r", &left, &right, &cache);
    assert_eq!(rows[0].status, CompareStatus::Pending);
    assert!(rows[0].dir_info.is_none());
    assert_eq!(summary.same, 0);
}

#[test]
fn cached_modified_directory_counts_as_difference() {
    let left = vec![entry("d", EntryKind::Dir, 0)];
    let right = vec![entry("d", EntryKind::Dir, 0)];
    let mut cache = DirCache::new();
    cache.insert("/l/d".to_string(), "/r/d".to_string(), (CompareStatus::Modified, 3));
    cache.insert("/l/d".to_string(), "/r/d".to_string(), (CompareStatus::Modified, 4));
    let (rows, summary) = compare_directory_impl("/l", "/r", &left, &right, &cache);
    assert_eq!(rows[0].status, CompareStatus::Modified);
    assert_eq!(rows[0].dir_info.unwrap().total_size, 4);
    assert_eq!(summary.meta_diff, 1);
}
