use sobj::list::{list_entry, list_impl, ListItem};

fn item(key: &str, size: u64) -> ListItem {
    ListItem { key: key.to_string(), size, last_modified: None }
}

fn keys(items: &[ListItem]) -> Vec<&str> {
    items.iter().map(|i| i.key.as_str()).collect()
}

#[test]
fn basic() {
    let entries = vec![item("sub/b.txt", 5), item("a.txt", 5)];
    let (items, next) = list_impl(entries, "", "", 100);
    assert_eq!(items.len(), 2);
    assert!(next.is_none());
    assert_eq!(items[0].key, "a.txt");
    assert_eq!(items[1].key, "sub/b.txt");
}

#[test]
fn prefix_filter() {
    let entries = vec![item("a.txt", 1), item("b.txt", 1)];
    let (items, _) = list_impl(entries, "a", "", 100);
    assert_eq!(items.len(), 1);
    assert_eq!(items[0].key, "a.txt");
}

#[test]
fn limit_and_cursor() {
    let make = || (0..5u8).rev().map(|i| item(&format!("{}.txt", i), 1)).collect::<Vec<_>>();
    let (items, next) = list_impl(make(), "", "", 3);
    assert_eq!(items.len(), 3);
    assert!(next.is_some());

    let cursor = next.unwrap();
    let (items2, next2) = list_impl(make(), "", &cursor, 3);
    assert_eq!(items2.len(), 2);
    assert!(next2.is_none());
}

#[test]
fn skips_uploading_tmp() {
    let entries = vec![item("a.txt", 1), item("a.0.uploading.tmp", 3), item("a.42.uploading.tmp", 3)];
    let (items, _) = list_impl(entries, "", "", 100);
    assert_eq!(items.len(), 1);
    assert_eq!(items[0].key, "a.txt");
}

#[test]
fn size_reported() {
    let (items, _) = list_impl(vec![item("data.bin", 5)], "", "", 100);
    assert_eq!(items[0].size, 5);
}

#[test]
fn pages_continue_where_the_last_stopped() {
    let names = ["e", "b", "d", "a", "c", "g", "f"];
    let make = || names.iter().map(|n| item(n, 1)).collect::<Vec<_>>();
    let (p1, c1) = list_impl(make(), "", "", 3);
    assert_eq!(keys(&p1), vec!["a", "b", "c"]);
    assert_eq!(c1.as_deref(), Some("c"));
    let (p2, c2) = list_impl(make(), "", c1.as_deref().unwrap(), 3);
    assert_eq!(keys(&p2), vec!["d", "e", "f"]);
    assert_eq!(c2.as_deref(), Some("f"));
    let (p3, c3) = list_impl(make(), "", c2.as_deref().unwrap(), 3);
    assert_eq!(keys(&p3), vec!["g"]);
    assert!(c3.is_none());
}

#[test]
fn exact_fit_has_no_next_cursor() {
    let entries = vec![item("x", 1), item("y", 1)];
    let (items, next) = list_impl(entries, "", "", 2);
    assert_eq!(items.len(), 2);
    assert!(next.is_none());
}

#[test]
fn zero_limit_returns_nothing_and_keeps_the_cursor() {
    let entries = || vec![item("x", 1), item("y", 1)];
    let (items, next) = list_impl(entries(), "", "", 0);
    assert!(items.is_empty());
    assert_eq!(next.as_deref(), Some(""));
    let (items, next) = list_impl(entries(), "", "x", 0);
    assert!(items.is_empty());
    assert_eq!(next.as_deref(), Some("x"));
    let (items, next) = list_impl(entries(), "", "y", 0);
    assert!(items.is_empty());
    assert!(next.is_none());
}

#[test]
fn paging_visits_every_key_once_in_order() {
    let names = ["e", "a", "d", "b/1", "c", "b/0", "f"];
    let mut cursor = String::new();
    let mut seen = Vec::new();
    let mut pages = Vec::new();
    loop {
        let (items, next) = list_impl(names.iter().map(|n| item(n, 1)).collect(), "", &cursor, 3);
        pages.push(items.len());
        seen.extend(keys(&items).into_iter().map(|k| k.to_string()));
        match next {
            Some(c) => cursor = c,
            None => break,
        }
    }
    assert_eq!(seen, vec!["a", "b/0", "b/1", "c", "d", "e", "f"]);
    assert_eq!(pages, vec![3, 3, 1]);
}

#[test]
fn cursor_excludes_equal_and_smaller_keys() {
    let entries = vec![item("a", 1), item("b", 1), item("c", 1)];
    let (items, _) = list_impl(entries, "", "b", 10);
    assert_eq!(keys(&items), vec!["c"]);
}

#[test]
fn order_is_by_bytes() {
    let entries = vec![item("b", 1), item("B", 1), item("a/b", 1), item("a.b", 1), item("\u{e9}", 1)];
    let (items, _) = list_impl(entries, "", "", 10);
    assert_eq!(keys(&items), vec!["B", "a.b", "a/b", "b", "\u{e9}"]);
}

#[test]
fn equal_keys_keep_their_order() {
    let entries = vec![item("k", 1), item("k", 2), item("a", 3)];
    let (items, _) = list_impl(entries, "", "", 10);
    assert_eq!(items.iter().map(|i| i.size).collect::<Vec<_>>(), vec![3, 1, 2]);
}

#[test]
fn prefix_and_cursor_together() {
    let entries = vec![item("img/1", 1), item("img/2", 1), item("doc/1", 1), item("img/3", 1)];
    let (items, next) = list_impl(entries, "img/", "img/1", 1);
    assert_eq!(keys(&items), vec!["img/2"]);
    assert_eq!(next.as_deref(), Some("img/2"));
}

#[test]
fn modification_time_is_kept() {
    let mut e = item("a", 1);
    e.last_modified = Some("2026-03-01T12:00:00Z".to_string());
    let (items, _) = list_impl(vec![e], "", "", 10);
    assert_eq!(items[0].last_modified.as_deref(), Some("2026-03-01T12:00:00Z"));
}

#[test]
fn entries_carry_rfc3339_times() {
    let e = list_entry("a.txt".to_string(), 5, Some(1_772_366_400_000_000_000));
    assert_eq!((e.key.as_str(), e.size), ("a.txt", 5));
    assert_eq!(e.last_modified.as_deref(), Some("2026-03-01T12:00:00Z"));
    let e = list_entry("b".to_string(), 0, Some(1_772_366_400_500_000_000));
    assert_eq!(e.last_modified.as_deref(), Some("2026-03-01T12:00:00.5Z"));
    let e = list_entry("c".to_string(), 0, Some(0));
    assert_eq!(e.last_modified.as_deref(), Some("1970-01-01T00:00:00Z"));
    let e = list_entry("d".to_string(), 0, Some(-1_000_000_000));
    assert_eq!(e.last_modified.as_deref(), Some("1969-12-31T23:59:59Z"));
    assert!(list_entry("e".to_string(), 0, Some(253_402_300_800_000_000_000)).last_modified.is_none());
    assert!(list_entry("f".to_string(), 0, Some(i128::MAX)).last_modified.is_none());
    assert!(list_entry("g".to_string(), 0, None).last_modified.is_none());
}
