use disktree::orchestrator::{CacheKey, CachedScan, Orchestrator, ScanStep};
use disktree::scan::{Item, ItemKind, ScanMsg, ViewMode};

fn item(name: &str, size: u64) -> Item {
    Item { name: name.to_string(), path: format!("/a/{}", name), size, kind: ItemKind::Dir, count: 0 }
}

fn done(items: Vec<Item>) -> ScanMsg {
    let total = items.iter().map(|i| i.size).sum();
    ScanMsg::Done { items, total, errors: 0 }
}

fn cached(path: &str) -> (CacheKey, CachedScan) {
    (
        CacheKey { path: path.to_string(), view: ViewMode::Dirs },
        CachedScan { items: vec![], total: 0, layout_sizes: vec![], layout_has_zero: false, errors: 0 },
    )
}

#[test]
fn second_request_hits_cache() {
    let mut o = Orchestrator::new("/a".to_string());
    let s1 = o.start_scan();
    assert_eq!(s1, ScanStep { cancel: None, start: Some(0) });
    assert!(o.scan_state.scanning);
    assert!(o.on_message(0, done(vec![item("x", 5), item("y", 0)])));
    assert!(!o.scan_state.scanning);
    assert_eq!(o.layout_sizes, vec![(0, 5), (1, 0)]);
    assert!(o.layout_has_zero);
    let first: Vec<(String, u64)> = o.items.iter().map(|i| (i.name.clone(), i.size)).collect();
    let s2 = o.request_scan("/a".to_string(), ViewMode::Dirs);
    assert_eq!(s2, ScanStep { cancel: Some(0), start: None });
    let second: Vec<(String, u64)> = o.items.iter().map(|i| (i.name.clone(), i.size)).collect();
    assert_eq!(first, second);
    assert_eq!(o.total, 5);
    assert_eq!(o.scan_state.scanned, 2);
    assert!(o.active.is_none());
}

#[test]
fn other_view_is_another_key() {
    let mut o = Orchestrator::new("/a".to_string());
    o.start_scan();
    o.on_message(0, done(vec![item("x", 5)]));
    let s = o.request_scan("/a".to_string(), ViewMode::Files);
    assert_eq!(s.start, Some(1));
    assert!(o.items.is_empty());
}

#[test]
fn invalidation_drops_ancestors_and_self_only() {
    let mut o = Orchestrator::new("/a".to_string());
    o.cache = vec![cached("/a"), cached("/a/b"), cached("/a/c"), cached("/a/b/d"), cached("/ab")];
    o.invalidate("/a/b");
    let left: Vec<&str> = o.cache.iter().map(|(k, _)| k.path.as_str()).collect();
    assert_eq!(left, vec!["/a/c", "/ab"]);
}

#[test]
fn superseded_scan_messages_are_ignored() {
    let mut o = Orchestrator::new("/a".to_string());
    let s1 = o.start_scan();
    let old_id = s1.start.unwrap();
    let s2 = o.request_scan("/b".to_string(), ViewMode::Dirs);
    assert_eq!(s2.cancel, Some(old_id));
    let new_id = s2.start.unwrap();
    assert_ne!(new_id, old_id);
    assert!(!o.on_message(old_id, ScanMsg::Progress { scanned: 10, errors: 1 }));
    assert!(!o.on_message(old_id, done(vec![item("stale", 99)])));
    assert!(o.items.is_empty());
    assert!(o.cache.is_empty());
    assert_eq!(o.scan_state.scanned, 0);
    assert!(o.on_message(new_id, ScanMsg::Progress { scanned: 3, errors: 0 }));
    assert_eq!(o.scan_state.scanned, 3);
}

#[test]
fn error_and_disconnect_end_scanning() {
    let mut o = Orchestrator::new("/a".to_string());
    o.start_scan();
    assert!(o.on_message(0, ScanMsg::Error("/proc is excluded".to_string())));
    assert_eq!(o.last_error.as_deref(), Some("/proc is excluded"));
    assert!(!o.scan_state.scanning);
    assert!(o.on_disconnect(0));
    assert!(o.active.is_none());
    assert!(!o.on_disconnect(0));
}

#[test]
fn go_up_from_files_then_to_parent() {
    let mut o = Orchestrator::new("/a/b".to_string());
    o.view_mode = ViewMode::Files;
    let s = o.go_up().unwrap();
    assert_eq!(o.view_mode, ViewMode::Dirs);
    assert_eq!(o.current_path, "/a/b");
    assert!(s.start.is_some());
    o.go_up().unwrap();
    assert_eq!(o.current_path, "/a");
    o.go_up().unwrap();
    assert_eq!(o.current_path, "/");
    assert!(o.go_up().is_none());
}
