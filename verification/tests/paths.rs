//! Paths inside a root.

use periphery::path::configured_path;
use periphery::path::file_name;
use periphery::path::join;
use periphery::path::parent;
use periphery::path::path_is_below;
use periphery::path::relative_path;
use periphery::path::same_path;
use periphery::path::single_name;
use periphery::path::strip_prefix;
use periphery::path::PathError;
use periphery::path::MAX_DEPTH;
use periphery::path::PRIVATE_STATE_DIRECTORY;

#[test]
fn accepts_normal_relative_paths_and_root() {
    assert_eq!(
        relative_path("config/app.toml", false).unwrap(),
        "config/app.toml"
    );
    assert_eq!(relative_path("", true).unwrap(), "");
}

#[test]
fn rejects_escape_and_alternate_syntax() {
    for path in [
        "",
        "/etc/passwd",
        "../secret",
        "config/../secret",
        "./config",
        "config//file",
        "config/",
        "C:/secret",
        "C:\\secret",
        "config\\file",
    ] {
        assert!(relative_path(path, false).is_err(), "accepted {path:?}");
    }
}

#[test]
fn rejects_paths_that_are_not_normalized() {
    for path in ["config/./app.toml", "config/.", ".", "./config", "a/./b/./c"] {
        assert_eq!(relative_path(path, false), Err(PathError::NotNormal));
        assert_eq!(relative_path(path, true), Err(PathError::NotNormal));
    }
    assert_eq!(single_name("."), Err(PathError::NotNormal));
    for path in ["config/.hidden", ".hidden/app", "config/...", "config/a."] {
        assert_eq!(relative_path(path, false).as_deref(), Ok(path));
    }
}

#[test]
fn rejects_embedded_nul() {
    assert!(relative_path("config/\0secret", false).is_err());
}

#[test]
fn rejects_private_recovery_paths() {
    assert!(relative_path(PRIVATE_STATE_DIRECTORY, false).is_err());
    assert!(relative_path(".KOMODO-FILE-MANAGER", false).is_err());
    assert!(relative_path("data/.komodo-file-manager/entry", false).is_err());
}

#[test]
fn name_is_exactly_one_component() {
    assert!(single_name("renamed.txt").is_ok());
    assert!(single_name("nested/renamed.txt").is_err());
}

#[test]
fn configured_paths_match_stack_execution_roots() {
    assert_eq!(
        configured_path("/srv/komodo/stacks/demo", "./config"),
        "/srv/komodo/stacks/demo/config"
    );
    assert_eq!(
        configured_path("/srv/komodo/stacks/demo", "../shared"),
        "/srv/komodo/stacks/shared"
    );
    assert_eq!(
        configured_path("/srv/komodo/stacks/demo", "/opt/stack"),
        "/opt/stack"
    );
}

#[test]
fn each_refused_path_is_told_why() {
    assert_eq!(relative_path("", false), Err(PathError::Empty));
    assert_eq!(relative_path("a\0b", false), Err(PathError::Nul));
    assert_eq!(relative_path("a\\b", false), Err(PathError::Separator));
    assert_eq!(relative_path("/a", false), Err(PathError::Absolute));
    assert_eq!(relative_path("a//b", false), Err(PathError::EmptyComponent));
    assert_eq!(
        relative_path("a/.Komodo-File-Manager", false),
        Err(PathError::Reserved)
    );
    assert_eq!(relative_path("a/../b", false), Err(PathError::NotNormal));
    assert_eq!(single_name("a/b"), Err(PathError::NotSingle));
    let mut deep = String::from("a");
    for _ in 0..MAX_DEPTH {
        deep.push_str("/a");
    }
    assert_eq!(relative_path(&deep, false), Err(PathError::Depth));
    assert!(relative_path(&deep[2..], false).is_ok());
}

#[test]
fn paths_are_taken_apart_by_their_names() {
    assert_eq!(parent("a/b").unwrap(), "a");
    assert_eq!(parent("a").unwrap(), "");
    assert!(parent("/").is_none());
    assert_eq!(file_name("a/b.txt").unwrap(), "b.txt");
    assert!(file_name("a/..").is_none());
    assert_eq!(join("a", "b"), "a/b");
    assert_eq!(join("", "b"), "b");
    assert_eq!(join("a", "/b"), "/b");
    assert_eq!(strip_prefix("/a/b/c", "/a").unwrap(), "b/c");
    assert!(strip_prefix("/ab/c", "/a").is_none());
    assert!(same_path("/a//b/", "/a/./b"));
    assert!(path_is_below("/a/b", "/a"));
    assert!(!path_is_below("/ab", "/a"));
    assert!(path_is_below("/a", "/a"));
}

#[test]
fn configured_paths_never_go_above_the_file_system_root() {
    assert_eq!(configured_path("/srv", "../../../etc"), "/etc");
    assert_eq!(configured_path("/srv/demo", "a/../b"), "/srv/demo/b");
}
