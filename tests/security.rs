use split_compare::security::{check_relative_path, validate_confinement, SecurityError};

#[test]
fn test_relative_path_clean() {
    assert!(check_relative_path("src/main.rs").is_ok());
    assert!(check_relative_path("deep/nested/path/file.txt").is_ok());
}

#[test]
fn test_relative_path_traversal() {
    assert!(check_relative_path("../etc/passwd").is_err());
    assert!(check_relative_path("foo/../../bar").is_err());
}

#[test]
fn dots_inside_a_name_are_not_traversal() {
    assert!(check_relative_path("a..b/c").is_ok());
    assert!(check_relative_path("...").is_ok());
    assert!(check_relative_path("x/..").is_err());
    match check_relative_path("..") {
        Err(SecurityError::TraversalAttempt { path }) => assert_eq!(path, ".."),
        _ => panic!("expected a traversal error"),
    }
}

#[test]
fn confinement_accepts_paths_below_root() {
    assert_eq!(validate_confinement("/tmp/root", "/tmp/root/child.txt").unwrap(), "/tmp/root/child.txt");
    assert!(validate_confinement("/tmp/root", "/tmp/root").is_ok());
    assert!(validate_confinement("/", "/etc").is_ok());
}

#[test]
fn confinement_refuses_paths_outside_root() {
    assert!(validate_confinement("/tmp/root", "/tmp/rootless").is_err());
    match validate_confinement("/tmp/root", "/etc") {
        Err(SecurityError::EscapedRoot { root, target }) => {
            assert_eq!(root, "/tmp/root");
            assert_eq!(target, "/etc");
        }
        _ => panic!("expected an escape error"),
    }
}
