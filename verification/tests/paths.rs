//! Tests for path resolution and the backup path.

use hostsync::paths::{backup_path, path_file_name, resolve_file_path};

#[test]
fn file_name_of_ordinary_paths() {
    assert_eq!(path_file_name("/etc/hosts"), Some("hosts".to_string()));
    assert_eq!(path_file_name("hosts"), Some("hosts".to_string()));
    assert_eq!(path_file_name("/tmp/"), Some("tmp".to_string()));
    assert_eq!(path_file_name("a/./."), Some("a".to_string()));
}

#[test]
fn file_name_absent() {
    assert_eq!(path_file_name(""), None);
    assert_eq!(path_file_name("/"), None);
    assert_eq!(path_file_name("."), None);
    assert_eq!(path_file_name("a/.."), None);
    assert_eq!(path_file_name("../"), None);
}

#[test]
fn resolve_keeps_a_path_that_names_a_file() {
    assert_eq!(
        resolve_file_path("/tmp/hosts.temp", "/etc/hosts"),
        Some("/tmp/hosts.temp".to_string())
    );
    assert_eq!(resolve_file_path("/tmp/", "/etc/hosts"), Some("/tmp/".to_string()));
}

#[test]
fn resolve_appends_the_source_name_to_a_directory() {
    assert_eq!(resolve_file_path("..", "/etc/hosts"), Some("../hosts".to_string()));
    assert_eq!(resolve_file_path("/", "/etc/hosts"), Some("/hosts".to_string()));
    assert_eq!(resolve_file_path("", "/etc/hosts"), Some("hosts".to_string()));
}

#[test]
fn resolve_fails_when_neither_names_a_file() {
    assert_eq!(resolve_file_path("..", ".."), None);
}

#[test]
fn backup_path_swaps_the_extension_for_old() {
    assert_eq!(backup_path("/etc/hosts"), "/etc/hosts.old".to_string());
    assert_eq!(backup_path("hosts.txt"), "hosts.old".to_string());
    assert_eq!(backup_path("a.b.c"), "a.b.old".to_string());
    assert_eq!(backup_path(".bashrc"), ".bashrc.old".to_string());
    assert_eq!(backup_path("dir/.."), "dir/..".to_string());
}
