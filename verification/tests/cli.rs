use sobj::cli::{
    client_settings, content_length, encode_key, endpoint_base, health_url, list_url, ls_output, object_url,
    parse_u64, rm_output, upload_content_type, ClientConfig, ClientFlags,
};
use sobj::key::normalize_key;
use sobj::list::ListItem;

#[test]
fn encode_key_keeps_plain_segments() {
    assert_eq!(encode_key("foo/bar.txt"), "foo/bar.txt");
    assert_eq!(encode_key("a-b_c.d~e"), "a-b_c.d~e");
}

#[test]
fn encode_key_encodes_each_segment() {
    assert_eq!(encode_key("hello world"), "hello%20world");
    assert_eq!(encode_key("dir name/a&b=c?"), "dir%20name/a%26b%3Dc%3F");
    assert_eq!(encode_key("\u{3042}"), "%E3%81%82");
}

#[test]
fn encode_key_trims_leading_slashes_only() {
    assert_eq!(encode_key("//a/b/"), "a/b/");
    assert_eq!(encode_key("/"), "");
    assert_eq!(encode_key("a//b"), "a//b");
}

#[test]
fn encoded_keys_decode_back() {
    for k in ["hello world", "x/y z/%41", "\u{e9}t\u{e9}/r\u{e9}sum\u{e9}.pdf", "a+b"] {
        assert_eq!(normalize_key(&encode_key(k)).unwrap(), k);
    }
}

#[test]
fn urls() {
    assert_eq!(endpoint_base("http://h:9999//"), "http://h:9999");
    assert_eq!(endpoint_base("http://h:9999"), "http://h:9999");
    assert_eq!(object_url("http://h", "a b/c"), "http://h/a%20b/c");
    assert_eq!(list_url("http://h", None, None, None), "http://h/");
    assert_eq!(
        list_url("http://h", Some("img/".to_string()), Some(100), Some("img/a b".to_string())),
        "http://h/?prefix=img%2F&limit=100&cursor=img%2Fa%20b"
    );
    assert_eq!(list_url("http://h", None, Some(0), None), "http://h/?limit=0");
}

#[test]
fn numbers() {
    assert_eq!(parse_u64("123"), Some(123));
    assert_eq!(parse_u64("+7"), Some(7));
    assert_eq!(parse_u64("18446744073709551615"), Some(u64::MAX));
    assert_eq!(parse_u64("18446744073709551616"), None);
    assert_eq!(parse_u64(""), None);
    assert_eq!(parse_u64("+"), None);
    assert_eq!(parse_u64("-1"), None);
    assert_eq!(parse_u64("12a"), None);
    assert_eq!(parse_u64(" 1"), None);
    assert_eq!(content_length(Some("2048")), 2048);
    assert_eq!(content_length(Some("lots")), 0);
    assert_eq!(content_length(None), 0);
}

#[test]
fn upload_types() {
    assert_eq!(upload_content_type(Some("image/jpeg".to_string()), "x.png"), "image/jpeg");
    assert_eq!(upload_content_type(None, "./photo.png"), "image/png");
    assert_eq!(upload_content_type(None, "Makefile"), "application/octet-stream");
}

#[test]
fn rm_messages() {
    assert_eq!(rm_output("", "a.txt"), "deleted a.txt");
    assert_eq!(rm_output(" \n", "a.txt"), "deleted a.txt");
    assert_eq!(rm_output("{\"ok\":true}", "a.txt"), "{\"ok\":true}");
}

#[test]
fn ls_lines() {
    let items = vec![
        ListItem { key: "a.txt".to_string(), size: 5, last_modified: Some("2026-03-01T12:00:00Z".to_string()) },
        ListItem { key: "b".to_string(), size: 12345678901, last_modified: None },
    ];
    let lines = ls_output(&items, &Some("b".to_string()));
    assert_eq!(
        lines,
        vec![
            "Items:",
            "           5  2026-03-01T12:00:00Z  a.txt",
            "  12345678901  -  b",
            "",
            "next_cursor=b",
        ]
    );
    assert!(ls_output(&vec![], &None).is_empty());
}

fn no_flags() -> ClientFlags {
    ClientFlags { endpoint: None, ca_cert: None, insecure: false }
}

#[test]
fn client_defaults_without_configuration() {
    let s = client_settings(None, no_flags(), "/etc/sobj");
    assert_eq!(s.endpoint, "http://127.0.0.1:9999");
    assert!(s.token.is_none());
    assert_eq!(s.timeout_secs, 300);
    assert!(s.ca_cert.is_none());
    assert!(!s.insecure);
}

#[test]
fn client_configuration_and_flags() {
    let cfg = || ClientConfig {
        endpoint: Some("https://localhost:9999/".to_string()),
        token: Some("Bearer devtoken".to_string()),
        timeout_secs: Some(3600),
        tls_ca_cert_pem_path: Some("./tls/ca.cert.pem".to_string()),
        tls_insecure_skip_verify: Some(false),
    };
    let s = client_settings(Some(cfg()), no_flags(), "/home/u/.sobj");
    assert_eq!(s.endpoint, "https://localhost:9999");
    assert_eq!(s.token.as_deref(), Some("Bearer devtoken"));
    assert_eq!(s.timeout_secs, 3600);
    assert_eq!(s.ca_cert.as_deref(), Some("/home/u/.sobj/./tls/ca.cert.pem"));
    assert!(!s.insecure);
    let flags = ClientFlags {
        endpoint: Some("http://192.168.1.10:9999".to_string()),
        ca_cert: Some("./other.pem".to_string()),
        insecure: true,
    };
    let s = client_settings(Some(cfg()), flags, "/home/u/.sobj");
    assert_eq!(s.endpoint, "http://192.168.1.10:9999");
    assert_eq!(s.ca_cert.as_deref(), Some("./other.pem"));
    assert!(s.insecure);
    assert_eq!(health_url(&s.endpoint), "http://192.168.1.10:9999/health");
}
