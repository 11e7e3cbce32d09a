use index_repo::paths::{
    extension, file_name, is_in, join, same_path, split_path, starts_with, strip_prefix,
};
use index_repo::registry::is_path_before;
use std::path::Path;

#[test]
fn components_of_paths() {
    assert_eq!(split_path("/a//b/./c/"), vec!["/", "a", "b", "c"]);
    assert_eq!(split_path("./a/../b"), vec![".", "a", "..", "b"]);
    assert!(split_path("").is_empty());
}

#[test]
fn names_and_extensions() {
    assert_eq!(file_name("/a/b.tar.gz").as_deref(), Some("b.tar.gz"));
    assert_eq!(file_name("/a/b/").as_deref(), Some("b"));
    assert_eq!(file_name("/a/.."), None);
    assert_eq!(file_name("/"), None);
    assert_eq!(extension("/a/b.tar.gz").as_deref(), Some("gz"));
    assert_eq!(extension(".envrc"), None);
    assert_eq!(extension("a."), Some(String::new()));
}

#[test]
fn prefixes_go_by_component() {
    assert!(starts_with("/a/b/c", "/a/b/"));
    assert!(!starts_with("/a/bc", "/a/b"));
    assert!(same_path("/a//b/.", "/a/b"));
    assert!(!same_path("a", "/a"));
    assert_eq!(strip_prefix("/a/b//c/d", "/a/b"), Some("c/d".to_string()));
    assert_eq!(strip_prefix("/a/b", "/a/b/"), Some(String::new()));
    assert_eq!(strip_prefix("/a", "/a/b"), None);
    assert_eq!(join("/a", "b"), "/a/b");
    assert_eq!(join("/a/", "b"), "/a/b");
}

#[test]
fn entries_of_a_directory() {
    assert!(is_in("/a/b", "/a"));
    assert!(is_in("/a//b/", "/a/."));
    assert!(!is_in("/a/b/c", "/a"));
    assert!(!is_in("/a", "/a"));
    assert!(!is_in("/", ""));
}

/// All texts of at most `n` characters over an alphabet.
fn all_texts(alphabet: &[char], n: usize) -> Vec<String> {
    let mut all = vec![String::new()];
    let mut last = all.clone();
    for _ in 0..n {
        let mut next = Vec::new();
        for s in &last {
            for c in alphabet {
                let mut t = s.clone();
                t.push(*c);
                next.push(t);
            }
        }
        all.extend(next.iter().cloned());
        last = next;
    }
    all
}

#[test]
fn paths_are_read_as_std_reads_them() {
    for s in all_texts(&['/', '.', 'a'], 6) {
        let p = Path::new(&s);
        let want: Vec<String> =
            p.components().map(|c| c.as_os_str().to_str().unwrap().to_string()).collect();
        assert_eq!(split_path(&s), want, "{s:?}");
        assert_eq!(file_name(&s).as_deref(), p.file_name().and_then(|n| n.to_str()), "{s:?}");
        assert_eq!(extension(&s).as_deref(), p.extension().and_then(|n| n.to_str()), "{s:?}");
        assert_eq!(join(&s, "b"), p.join("b").to_str().unwrap(), "{s:?}");
    }
}

#[test]
fn pairs_of_paths_are_related_as_in_std() {
    let all = all_texts(&['/', '.', 'a'], 4);
    for s in &all {
        for t in &all {
            let (p, q) = (Path::new(s), Path::new(t));
            assert_eq!(starts_with(s, t), p.starts_with(q), "{s:?} {t:?}");
            assert_eq!(same_path(s, t), p == q, "{s:?} {t:?}");
            assert_eq!(is_path_before(s, t), p < q, "{s:?} {t:?}");
            let rel = p.strip_prefix(q).ok().map(|r| r.to_str().unwrap().to_string());
            assert_eq!(strip_prefix(s, t), rel, "{s:?} {t:?}");
            let inside = p.file_name().is_some() && p.parent() == Some(q);
            assert_eq!(is_in(s, t), inside, "{s:?} {t:?}");
        }
    }
}
