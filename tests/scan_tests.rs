use disktree::du::parse_du_output;
use disktree::collect::{DirScan, FileScan};
use disktree::paths::{device_for_path, is_proc_path, parent_path, path_starts_with, same_path};
use disktree::scan::{
    decimal_string, excluded_root_error, files_label_string, finish_items, sort_by_size, total_size, Entry,
    Item, ItemKind, ScanMsg,
};
use disktree::text::{label_for_rect, truncate_middle, unescape_mount_field};

fn item(name: &str, size: u64) -> Item {
    Item { name: name.to_string(), path: format!("/d/{}", name), size, kind: ItemKind::Dir, count: 0 }
}

fn dir(name: &str) -> Entry {
    Entry::Dir { name: name.to_string(), path: format!("/base/{}", name) }
}

fn file(name: &str, size: Option<u64>) -> Entry {
    Entry::File { name: name.to_string(), path: format!("/base/{}", name), size }
}

#[test]
fn decimal_strings() {
    assert_eq!(decimal_string(0), "0");
    assert_eq!(decimal_string(7), "7");
    assert_eq!(decimal_string(1234), "1234");
    assert_eq!(decimal_string(u64::MAX), "18446744073709551615");
}

#[test]
fn files_label() {
    assert_eq!(files_label_string(42), "(Files: 42)");
    assert_eq!(files_label_string(0), "(Files: 0)");
}

#[test]
fn sort_is_descending_and_stable() {
    let out = sort_by_size(vec![item("a", 3), item("b", 9), item("c", 3), item("d", 12)]);
    let names: Vec<&str> = out.iter().map(|i| i.name.as_str()).collect();
    assert_eq!(names, vec!["d", "b", "a", "c"]);
}

#[test]
fn total_saturates() {
    assert_eq!(total_size(&vec![item("a", 3), item("b", 4)]), 7);
    assert_eq!(total_size(&vec![item("a", u64::MAX), item("b", 4)]), u64::MAX);
    assert_eq!(total_size(&vec![]), 0);
}

#[test]
fn finish_items_sorts_and_totals() {
    match finish_items(vec![item("a", 1), item("b", 5)], 2) {
        ScanMsg::Done { items, total, errors } => {
            assert_eq!(items[0].name, "b");
            assert_eq!(total, 6);
            assert_eq!(errors, 2);
        }
        other => panic!("unexpected {:?}", other),
    }
}

#[test]
fn dir_scan_aggregates_files_and_lists_dirs() {
    let mut s = DirScan::new("/base".to_string());
    assert!(s.add_entry(dir("x")).is_none());
    assert!(s.add_entry(file("f1", Some(100))).is_none());
    assert!(s.add_entry(file("f2", None)).is_none());
    assert!(s.add_entry(Entry::Symlink).is_none());
    assert!(s.add_entry(Entry::Unreadable).is_none());
    assert!(s.add_entry(Entry::Untyped { path: "/proc/self".to_string() }).is_none());
    assert!(s.add_entry(Entry::Dir { name: "p".to_string(), path: "/proc/1".to_string() }).is_none());
    assert!(s.add_entry(dir("y")).is_none());
    assert_eq!(s.scanned, 4);
    assert_eq!(s.errors, 2);
    assert_eq!(s.files_count, 2);
    assert_eq!(s.files_total, 100);
    assert_eq!(s.dir_jobs(), vec!["/base/x".to_string(), "/base/y".to_string()]);
    s.apply_size("/base/y", 4096);
    s.apply_size("/base/nowhere", 1);
    match s.finish() {
        ScanMsg::Done { items, total, errors } => {
            assert_eq!(total, 4196);
            assert_eq!(errors, 2);
            let summary: Vec<(String, u64, ItemKind, u64)> =
                items.iter().map(|i| (i.name.clone(), i.size, i.kind, i.count)).collect();
            assert_eq!(
                summary,
                vec![
                    ("y".to_string(), 4096, ItemKind::Dir, 0),
                    ("(Files: 2)".to_string(), 100, ItemKind::FilesAggregate, 2),
                    ("x".to_string(), 0, ItemKind::Dir, 0),
                ]
            );
            assert_eq!(items[1].path, "/base");
        }
        other => panic!("unexpected {:?}", other),
    }
}

#[test]
fn dir_scan_progress_every_2000() {
    let mut s = DirScan::new("/base".to_string());
    let mut msgs = Vec::new();
    for i in 0..4001 {
        if let Some(m) = s.add_entry(file(&format!("f{}", i), Some(1))) {
            msgs.push(m);
        }
    }
    assert_eq!(msgs.len(), 2);
    match &msgs[1] {
        ScanMsg::Progress { scanned, errors } => {
            assert_eq!(*scanned, 4000);
            assert_eq!(*errors, 0);
        }
        other => panic!("unexpected {:?}", other),
    }
}

#[test]
fn dir_scan_sizing_failure_counts_each_dir() {
    let mut s = DirScan::new("/base".to_string());
    s.add_entry(dir("a"));
    s.add_entry(dir("b"));
    s.add_entry(file("f", Some(3)));
    s.sizing_failed();
    assert_eq!(s.errors, 2);
}

#[test]
fn file_scan_lists_files_only() {
    let mut s = FileScan::new();
    s.add_entry(file("small", Some(5)));
    s.add_entry(dir("sub"));
    s.add_entry(file("big", Some(50)));
    s.add_entry(file("bad", None));
    s.add_entry(Entry::Other);
    assert_eq!(s.errors, 1);
    assert_eq!(s.scanned, 3);
    match s.finish() {
        ScanMsg::Done { items, total, errors } => {
            let names: Vec<&str> = items.iter().map(|i| i.name.as_str()).collect();
            assert_eq!(names, vec!["big", "small", "bad"]);
            assert!(items.iter().all(|i| i.kind == ItemKind::File));
            assert_eq!(total, 55);
            assert_eq!(errors, 1);
        }
        other => panic!("unexpected {:?}", other),
    }
}

#[test]
fn proc_paths() {
    assert!(is_proc_path("/proc"));
    assert!(is_proc_path("/proc/1/fd"));
    assert!(!is_proc_path("/procfs"));
    assert!(!is_proc_path("/home/proc"));
    assert!(excluded_root_error("/proc/self").is_some());
    assert_eq!(excluded_root_error("/proc").unwrap(), "/proc is excluded");
    assert!(excluded_root_error("/tmp").is_none());
}

#[test]
fn path_prefixes() {
    assert!(path_starts_with("/a/b", "/a"));
    assert!(path_starts_with("/a", "/a"));
    assert!(path_starts_with("/a/b", "/"));
    assert!(!path_starts_with("/ab", "/a"));
    assert!(!path_starts_with("/a", "/a/b"));
    assert!(same_path("/x/y", "/x/y"));
    assert!(!same_path("/x/y", "/x/z"));
}

#[test]
fn parents() {
    assert_eq!(parent_path("/a/b"), Some("/a".to_string()));
    assert_eq!(parent_path("/a"), Some("/".to_string()));
    assert_eq!(parent_path("/"), None);
    assert_eq!(parent_path(""), None);
    assert_eq!(parent_path("name"), Some("".to_string()));
}

#[test]
fn unescape_fields() {
    assert_eq!(unescape_mount_field("/mnt/my\\040disk"), "/mnt/my disk");
    assert_eq!(unescape_mount_field("a\\011b\\012c\\134d"), "a\tb\nc\\d");
    assert_eq!(unescape_mount_field("x\\777y"), "x\\777y");
    assert_eq!(unescape_mount_field("end\\04"), "end\\");
    assert_eq!(unescape_mount_field("plain"), "plain");
}

#[test]
fn truncation() {
    assert_eq!(truncate_middle("short", 10), "short");
    assert_eq!(truncate_middle("abcdefghij", 3), "...");
    assert_eq!(truncate_middle("abcdefghij", 8), "ab...ij");
    assert_eq!(truncate_middle("abcdefghij", 9), "abc...hij");
}

#[test]
fn du_output_parsing() {
    assert_eq!(parse_du_output("12\t/some/dir\n"), 12 * 1024);
    assert_eq!(parse_du_output("  7 \t/x\n"), 7 * 1024);
    assert_eq!(parse_du_output("+3\t/x"), 3 * 1024);
    assert_eq!(parse_du_output("abc\t/x\n"), 0);
    assert_eq!(parse_du_output(""), 0);
    assert_eq!(parse_du_output("18446744073709551615\t/x"), u64::MAX);
    assert_eq!(parse_du_output("18446744073709551616\t/x"), 0);
    assert_eq!(parse_du_output("5\n6\t/y"), 5 * 1024);
}

#[test]
fn block_labels() {
    assert_eq!(label_for_rect("documents", "1.00 KiB", 20, 3), Some("documents 1.00 KiB".to_string()));
    assert_eq!(label_for_rect("documents", "1.00 KiB", 14, 1), Some("do... 1.00 KiB".to_string()));
    assert_eq!(label_for_rect("documents", "1.00 KiB", 12, 1), None);
    assert_eq!(label_for_rect("doc", "1.00 KiB", 12, 1), Some("doc 1.00 KiB".to_string()));
    assert_eq!(label_for_rect("documents", "1.00 KiB", 9, 1), None);
    assert_eq!(label_for_rect("a", "1 B", 3, 1), None);
    assert_eq!(label_for_rect("a", "1 B", 10, 0), None);
}

#[test]
fn longest_mount_point_wins() {
    let mounts = vec![
        ("/dev/root".to_string(), "/".to_string()),
        ("/dev/sdb1".to_string(), "/home".to_string()),
        ("/dev/sdc1".to_string(), "/home/user/data".to_string()),
        ("tmpfs".to_string(), "/home".to_string()),
        ("/dev/sdd1".to_string(), "/ho".to_string()),
    ];
    assert_eq!(device_for_path(&mounts, "/home/user/docs"), Some("/dev/sdb1".to_string()));
    assert_eq!(device_for_path(&mounts, "/home/user/data/x"), Some("/dev/sdc1".to_string()));
    assert_eq!(device_for_path(&mounts, "/etc"), Some("/dev/root".to_string()));
    assert_eq!(device_for_path(&mounts[1..].to_vec(), "/etc"), None);
}

#[test]
fn untyped_entries_count_unless_under_proc() {
    let mut s = FileScan::new();
    s.add_entry(Entry::Untyped { path: "/proc/7".to_string() });
    assert_eq!(s.errors, 0);
    s.add_entry(Entry::Untyped { path: "/base/x".to_string() });
    assert_eq!(s.errors, 1);
    assert_eq!(s.scanned, 0);
}
