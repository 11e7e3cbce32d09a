use index_repo::config::{collection_name, fallback_collection_name};
use index_repo::registry::{
    is_path_before, marker_content, marker_name, marker_pid, read_marker, Marker, Registry,
};

fn marker(root: &str, pid: u32, alive: bool, contents: &str) -> Marker {
    Marker { name: marker_name(root, pid), alive, contents: Some(contents.to_string()) }
}

fn registered(root: &str, pid: u32) -> Marker {
    let collection = collection_name(root, None, None);
    marker(root, pid, true, &marker_content(root, &collection))
}

#[test]
fn register_then_scan_returns_root() {
    let (scanned, dead) = Registry::scan(&vec![registered("/home/me/repo", 7)]);
    assert_eq!(scanned.len(), 1);
    assert_eq!(scanned[0].0, "/home/me/repo");
    assert!(scanned[0].1.starts_with("code-"), "marker records a name");
    assert!(dead.is_empty());
}

#[test]
fn unregister_removes_marker() {
    let mut markers = vec![registered("/home/me/repo", 7)];
    markers.retain(|m| m.name != marker_name("/home/me/repo", 7));
    assert!(Registry::scan(&markers).0.is_empty());
}

#[test]
fn dead_pid_is_gc_d() {
    let markers = vec![marker("/home/me/repo", 7, false, "/home/me/repo")];
    let (scanned, dead) = Registry::scan(&markers);
    assert!(scanned.is_empty(), "dead pid root should be omitted");
    assert_eq!(dead, vec![markers[0].name.clone()], "dead pid marker should be GC'd");
}

#[test]
fn same_root_two_pids_dedupes() {
    let markers = vec![registered("/home/me/repo", 7), registered("/home/me/repo", 8)];
    assert_ne!(markers[0].name, markers[1].name);
    let (scanned, dead) = Registry::scan(&markers);
    assert_eq!(scanned.len(), 1);
    assert_eq!(scanned[0].0, "/home/me/repo");
    assert!(dead.is_empty(), "both live markers remain");
}

#[test]
fn scan_reads_collection_name_from_marker() {
    let markers = vec![marker("/home/me/repo", 7, true, "/home/me/repo\ncode-custom-xyz")];
    let (scanned, _) = Registry::scan(&markers);
    assert_eq!(scanned, vec![("/home/me/repo".to_string(), "code-custom-xyz".to_string())]);
}

#[test]
fn scan_legacy_path_only_marker_falls_back() {
    let (scanned, _) = Registry::scan(&vec![marker("/home/me/repo", 7, true, "/home/me/repo")]);
    assert_eq!(scanned.len(), 1);
    assert_eq!(scanned[0].0, "/home/me/repo");
    assert_eq!(scanned[0].1, fallback_collection_name("/home/me/repo"));
}

#[test]
fn scan_orders_by_path_and_skips_what_is_no_marker() {
    let mut markers = vec![
        marker("/b", 1, true, "/b\ncode-b"),
        marker("/a-x", 2, true, "/a-x\ncode-ax"),
        marker("/a/c", 3, true, "/a/c\ncode-ac"),
        marker("/b/", 4, true, "/b/\ncode-b2"),
        marker("/e", 5, true, ""),
    ];
    markers.push(Marker { name: "README".to_string(), alive: true, contents: Some("/z".to_string()) });
    markers.push(Marker { name: "x.1b".to_string(), alive: false, contents: None });
    markers.push(Marker { name: marker_name("/u", 6), alive: true, contents: None });
    let (scanned, dead) = Registry::scan(&markers);
    assert_eq!(
        scanned,
        vec![
            ("/a/c".to_string(), "code-ac".to_string()),
            ("/a-x".to_string(), "code-ax".to_string()),
            ("/b".to_string(), "code-b2".to_string()),
        ]
    );
    assert!(dead.is_empty());
}

#[test]
fn marker_names_and_contents() {
    let name = marker_name("/home/me/repo", 4242);
    assert_eq!(name, format!("{}.4242", Registry::hash("/home/me/repo")));
    assert_eq!(marker_pid(&name), Some(4242));
    assert_eq!(marker_pid("a.b.4294967295"), Some(u32::MAX));
    assert_eq!(marker_pid("a.4294967296"), None);
    assert_eq!(marker_pid("nodot"), None);
    assert_eq!(
        read_marker(&marker_content("/r", "code-r")),
        Some(("/r".to_string(), "code-r".to_string()))
    );
    assert_eq!(read_marker(""), None);
}

#[test]
fn hash_is_the_start_of_the_digest() {
    // printf abc | sha1sum
    assert_eq!(Registry::hash("abc"), "a9993e364706816a");
}

#[test]
fn registry_directories() {
    let reg = Registry::from_env(Some("/run/user/1000"), 1000);
    assert_eq!(reg.base_path(), "/run/user/1000/index-repo");
    assert_eq!(reg.roots_dir(), "/run/user/1000/index-repo/roots");
    assert_eq!(reg.serve_lock_path(), "/run/user/1000/index-repo/serve.lock");
    assert_eq!(Registry::from_env(None, 1000).base_path(), "/tmp/index-repo-1000");
    assert_eq!(Registry::from_env(Some(""), 0).base_path(), "/tmp/index-repo-0");
    assert_eq!(Registry::with_base("/x/").roots_dir(), "/x/roots");
}

#[test]
fn paths_are_ordered_by_component() {
    assert!(is_path_before("/a/z", "/a-b"));
    assert!(is_path_before("/a", "/a/b"));
    assert!(!is_path_before("/a", "/a/"));
    assert!(is_path_before("/", "a"));
    assert!(is_path_before("./a", "../a"));
    assert!(is_path_before("../a", "a"));
}
