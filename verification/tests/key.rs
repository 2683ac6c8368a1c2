use std::path::PathBuf;

use sobj::key::{key_to_path, normalize_key, path_to_key, validate_key};

#[test]
fn normalize_key_valid() {
    assert!(normalize_key("foo").is_ok());
    assert!(normalize_key("foo/bar.txt").is_ok());
    assert!(normalize_key("a/b/c.json").is_ok());
}

#[test]
fn normalize_key_url_encoded() {
    let k = normalize_key("hello%20world").unwrap();
    assert_eq!(k, "hello world");
}

#[test]
fn normalize_key_empty() {
    assert!(normalize_key("").is_err());
}

#[test]
fn normalize_key_leading_slash() {
    assert!(normalize_key("/foo").is_err());
    assert!(normalize_key("/").is_err());
}

#[test]
fn normalize_key_dotdot() {
    assert!(normalize_key("../etc/passwd").is_err());
    assert!(normalize_key("foo/../bar").is_err());
    assert!(normalize_key("foo/..").is_err());
    assert!(normalize_key("..").is_err());
}

#[test]
fn key_to_path_safe() {
    let root = "/storage";
    let p = key_to_path(root, "foo/bar.txt").unwrap();
    assert_eq!(PathBuf::from(p), PathBuf::from("/storage/foo/bar.txt"));
}

#[test]
fn key_to_path_traversal_blocked() {
    let root = "/storage";
    assert!(key_to_path(root, "foo/../../../etc/passwd").is_err());
}

#[test]
fn normalize_key_keeps_plain_keys() {
    assert_eq!(normalize_key("images/2024/photo.jpg").unwrap(), "images/2024/photo.jpg");
    assert_eq!(normalize_key("a.b_c-d~e").unwrap(), "a.b_c-d~e");
}

#[test]
fn normalize_key_decodes_hex_in_both_cases() {
    assert_eq!(normalize_key("a%2fb").unwrap(), "a/b");
    assert_eq!(normalize_key("a%2Fb").unwrap(), "a/b");
    assert_eq!(normalize_key("%E3%81%82").unwrap(), "\u{3042}");
}

#[test]
fn normalize_key_keeps_incomplete_escapes() {
    assert_eq!(normalize_key("100%").unwrap(), "100%");
    assert_eq!(normalize_key("a%zzb").unwrap(), "a%zzb");
    assert_eq!(normalize_key("a%4").unwrap(), "a%4");
}

#[test]
fn normalize_key_replaces_invalid_utf8() {
    assert_eq!(normalize_key("x%FFy").unwrap(), "x\u{FFFD}y");
}

#[test]
fn normalize_key_rules_apply_after_decoding() {
    assert!(normalize_key("%2Ffoo").is_err());
    assert!(normalize_key("a%2E%2Eb").is_err());
    assert!(normalize_key("a%2E.b").is_err());
    assert!(normalize_key("a.b.c").is_ok());
}

#[test]
fn normalize_key_error_is_invalid_key() {
    let e = normalize_key("..").unwrap_err();
    assert_eq!(e.status, 400);
    assert_eq!(e.body.error, "InvalidKey");
    assert_eq!(
        e.body.message.as_deref(),
        Some("key must not be empty, start with /, or contain ..")
    );
}

#[test]
fn validate_key_checks_rules() {
    assert_eq!(validate_key("ok/key".to_string()).unwrap(), "ok/key");
    assert!(validate_key(String::new()).is_err());
    assert!(validate_key("/abs".to_string()).is_err());
    assert!(validate_key("x..y".to_string()).is_err());
}

#[test]
fn key_to_path_joins_with_one_separator() {
    assert_eq!(key_to_path("/storage/", "a.txt").unwrap(), "/storage/a.txt");
    assert_eq!(key_to_path("", "a.txt").unwrap(), "a.txt");
    assert_eq!(key_to_path("./data", "x/y").unwrap(), "./data/x/y");
}

#[test]
fn key_to_path_refuses_absolute_keys() {
    let e = key_to_path("/storage", "/etc/passwd").unwrap_err();
    assert_eq!((e.status, e.body.error), (400, "InvalidKey"));
    assert!(key_to_path("/storage", "/").is_err());
    assert!(key_to_path("", "/a").is_err());
}

#[test]
fn key_to_path_only_whole_dotdot_components_are_refused() {
    assert!(key_to_path("/storage", "a..b/c").is_ok());
    assert!(key_to_path("/storage", "..").is_err());
    assert!(key_to_path("/storage", "a/..").is_err());
    assert_eq!(key_to_path("/storage/..", "a").unwrap(), "/storage/../a");
    let e = key_to_path("/storage", "../x").unwrap_err();
    assert_eq!(e.status, 400);
}

#[test]
fn relative_root_with_parent_step_accepts_keys() {
    assert_eq!(key_to_path("/srv/sobj/../data", "a.txt").unwrap(), "/srv/sobj/../data/a.txt");
    assert_eq!(key_to_path("../data", "x/y.bin").unwrap(), "../data/x/y.bin");
    assert_eq!(key_to_path("../data", "x/../y").unwrap_err().status, 400);
}

#[test]
fn stored_path_gives_back_the_key() {
    for k in ["a.txt", "sub/b.txt", "deep/er/path.json"] {
        let p = key_to_path("/srv/data", k).unwrap();
        let rel = p.strip_prefix("/srv/data/").unwrap();
        assert_eq!(path_to_key(rel), k);
    }
}

#[test]
fn path_to_key_keeps_text() {
    assert_eq!(path_to_key("sub/b.txt"), "sub/b.txt");
}

#[test]
fn valid_keys_stay_under_root() {
    for raw in ["a", "a/b", "x.y/z", "deep/er/path.txt"] {
        let k = normalize_key(raw).unwrap();
        let p = key_to_path("/srv/data", &k).unwrap();
        assert!(p.starts_with("/srv/data/"));
    }
}
