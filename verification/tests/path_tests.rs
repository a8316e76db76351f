use zhtta::path::{join_path, joinable, normalize_path};

#[test]
fn requested_paths_join_the_served_directory() {
    assert_eq!(join_path(b"/srv/www", b"./index.html"), b"/srv/www/index.html".to_vec());
    assert_eq!(join_path(b"/srv/www", b"./"), b"/srv/www".to_vec());
    assert_eq!(join_path(b"/srv/www", b"./a//b/./c/"), b"/srv/www/a/b/c".to_vec());
    assert_eq!(join_path(b"/srv/www", b"./../../../etc/passwd"), b"/etc/passwd".to_vec());
    assert_eq!(join_path(b"/srv/www", b"/abs/x"), b"/abs/x".to_vec());
    assert_eq!(join_path(b"/", b"./x"), b"/x".to_vec());
    assert_eq!(join_path(b"/srv", b""), b"/srv".to_vec());
}

#[test]
fn normal_forms() {
    assert_eq!(normalize_path(b"/"), b"/".to_vec());
    assert_eq!(normalize_path(b"/.."), b"/".to_vec());
    assert_eq!(normalize_path(b"a/.."), b".".to_vec());
    assert_eq!(normalize_path(b"../a/../.."), b"../..".to_vec());
    assert_eq!(normalize_path(b""), b".".to_vec());
    assert_eq!(normalize_path(b"a/b/../c"), b"a/c".to_vec());
}

#[test]
fn zero_bytes_cannot_be_joined() {
    assert!(joinable(b"./index.html"));
    assert!(!joinable(b"./a\0b"));
}
