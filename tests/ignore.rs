use split_compare::ignore::IgnoreRules;

#[test]
fn test_ds_store_ignored() {
    let rules = IgnoreRules::new(&[]);
    assert!(rules.is_ignored(".DS_Store"));
    assert!(rules.is_ignored("some/nested/.DS_Store"));
}

#[test]
fn test_dot_underscore_ignored() {
    let rules = IgnoreRules::new(&[]);
    assert!(rules.is_ignored("._foo"));
    assert!(rules.is_ignored("deep/path/._bar"));
}

#[test]
fn test_spotlight_ignored() {
    let rules = IgnoreRules::new(&[]);
    assert!(rules.is_ignored(".Spotlight-V100"));
}

#[test]
fn test_normal_files_not_ignored() {
    let rules = IgnoreRules::new(&[]);
    assert!(!rules.is_ignored("readme.md"));
    assert!(!rules.is_ignored("src/main.rs"));
    assert!(!rules.is_ignored("package.json"));
}

#[test]
fn test_user_patterns() {
    let rules = IgnoreRules::new(&["*.log".to_string(), "node_modules".to_string()]);
    assert!(rules.is_ignored("debug.log"));
    assert!(rules.is_ignored("node_modules"));
    assert!(rules.is_ignored(".DS_Store"));
}

#[test]
fn every_default_name_is_ignored_at_any_depth() {
    let rules = IgnoreRules::new(&[]);
    for name in [".DS_Store", ".Spotlight-V100", ".Trashes", ".fseventsd", ".TemporaryItems",
        ".VolumeIcon.icns", "__MACOSX", "Thumbs.db", "._x"]
    {
        assert!(rules.is_ignored(name), "{}", name);
        assert!(rules.is_ignored(&format!("a/b/{}", name)), "{}", name);
    }
}

#[test]
fn pattern_matches_the_whole_path_too() {
    let rules = IgnoreRules::new(&["build/*".to_string()]);
    assert!(rules.is_ignored("build/out.o"));
    assert!(!rules.is_ignored("src/out.o"));
    assert!(!rules.is_ignored("ds_store"));
}
