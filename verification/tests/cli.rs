use chaff::cli::{
    config_caches_note_needed, effective_caches, effective_older_than, keep_at_least, parse_min_size, parse_older_than,
    sort_items, SortKey,
};
use chaff::model::Reclaimable;
use std::time::{SystemTime, UNIX_EPOCH};

fn now_nanos() -> i128 {
    SystemTime::now().duration_since(UNIX_EPOCH).unwrap().as_nanos() as i128
}

#[test]
fn min_size_parsing() {
    assert_eq!(parse_min_size(None).unwrap(), 0);
    assert_eq!(parse_min_size(Some("100M")).unwrap(), 100_000_000);
    assert!(parse_min_size(Some("bogus")).is_err());
}

#[test]
fn min_size_error_names_the_value() {
    assert_eq!(
        parse_min_size(Some("bogus")),
        Err("bad --min-size 'bogus' (try 100M, 1.5G)".to_string())
    );
}

#[test]
fn sort_items_orders_by_key() {
    let now = now_nanos();
    let mk = |size: u64, age_days: u64, path: &str| Reclaimable {
        path: path.to_string(),
        ecosystem: "x",
        label: "y",
        size,
        modified: Some(now - (age_days as i128) * 86_400 * 1_000_000_000),
    };
    let mut v = vec![mk(100, 1, "/b"), mk(300, 365, "/a"), mk(50, 30, "/c")];
    sort_items(&mut v, SortKey::Size);
    assert_eq!(v[0].size, 300);
    sort_items(&mut v, SortKey::Name);
    assert_eq!(v[0].path, "/a");
    sort_items(&mut v, SortKey::Age);
    assert_eq!(v[0].size, 300);
}

#[test]
fn sort_is_stable_and_puts_unknown_age_last() {
    let mk = |size: u64, modified: Option<i128>, path: &str| Reclaimable {
        path: path.to_string(),
        ecosystem: "x",
        label: "y",
        size,
        modified,
    };
    let mut v = vec![mk(5, None, "/n"), mk(5, Some(20), "/b"), mk(7, Some(10), "/a"), mk(5, Some(10), "/c")];
    sort_items(&mut v, SortKey::Size);
    let paths: Vec<&str> = v.iter().map(|i| i.path.as_str()).collect();
    assert_eq!(paths, vec!["/a", "/n", "/b", "/c"]);
    sort_items(&mut v, SortKey::Age);
    let paths: Vec<&str> = v.iter().map(|i| i.path.as_str()).collect();
    assert_eq!(paths, vec!["/a", "/c", "/b", "/n"]);
}

#[test]
fn name_sort_follows_path_components() {
    let mk = |path: &str| Reclaimable { path: path.to_string(), ecosystem: "x", label: "y", size: 1, modified: None };
    let mut v = vec![mk("/a-b"), mk("/a/b"), mk("/a"), mk("b"), mk("/a//c")];
    sort_items(&mut v, SortKey::Name);
    let paths: Vec<&str> = v.iter().map(|i| i.path.as_str()).collect();
    // `Path` compares component by component: "/a" < "/a/b" < "/a//c" < "/a-b",
    // and a rooted path sorts before a relative one.
    assert_eq!(paths, vec!["/a", "/a/b", "/a//c", "/a-b", "b"]);
}

#[test]
fn caches_scope_flags() {
    assert!(effective_caches(true, false, false));
    assert!(effective_caches(false, false, true));
    assert!(!effective_caches(true, true, true));
    assert!(!effective_caches(false, false, false));
    assert!(config_caches_note_needed(false, false, true));
    assert!(!config_caches_note_needed(true, false, true));
    assert!(!config_caches_note_needed(false, true, true));
    assert!(!config_caches_note_needed(false, false, false));
}

#[test]
fn keep_at_least_drops_small_items() {
    let mk = |size: u64| Reclaimable { path: format!("/{size}"), ecosystem: "x", label: "y", size, modified: None };
    let kept = keep_at_least(vec![mk(5), mk(100), mk(99), mk(100)], 100);
    let sizes: Vec<u64> = kept.iter().map(|i| i.size).collect();
    assert_eq!(sizes, vec![100, 100]);
}

#[test]
fn older_than_prefers_the_command_line() {
    assert_eq!(effective_older_than(Some("2w".to_string()), Some("30d".to_string())), Some("2w".to_string()));
    assert_eq!(effective_older_than(None, Some("30d".to_string())), Some("30d".to_string()));
    assert_eq!(effective_older_than(None, None), None);
}

#[test]
fn older_than_parsing() {
    assert_eq!(parse_older_than("30d"), Some(Ok(30 * 86_400)));
    assert_eq!(parse_older_than("30"), Some(Err("bad --older-than '30' (try 30d, 2w, 6mo)".to_string())));
    assert_eq!(parse_older_than("99999999999999999y"), None);
}

#[test]
fn sorting_keeps_every_item() {
    let mk = |size: u64, path: &str| Reclaimable { path: path.to_string(), ecosystem: "x", label: "y", size, modified: None };
    let mut v = vec![mk(3, "/a"), mk(9, "/b"), mk(3, "/a"), mk(1, "/c")];
    sort_items(&mut v, SortKey::Size);
    let mut paths: Vec<String> = v.iter().map(|i| i.path.clone()).collect();
    paths.sort();
    assert_eq!(paths, vec!["/a", "/a", "/b", "/c"]);
    assert_eq!(v[0].size, 9);
}
