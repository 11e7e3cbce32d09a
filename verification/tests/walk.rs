use index_repo::walk::{
    is_indexable, iter_files, keep_dir, load_ignore, takes_file, watch_dirs_under, Entry,
    WalkEntry,
};

const MAX: u64 = 512 * 1024;
const ROOT: &str = "/repo";

fn file(rel: &str, len: u64) -> Entry {
    Entry { path: format!("{ROOT}/{rel}"), is_file: true, len: Some(len) }
}

fn dir(rel: &str) -> Entry {
    Entry { path: format!("{ROOT}/{rel}"), is_file: false, len: Some(4096) }
}

fn names(paths: &[String]) -> Vec<String> {
    paths.iter().map(|p| p.rsplit('/').next().unwrap().to_string()).collect()
}

/// The directories of a tree below `start`, parents first, as a walk meets them.
fn tree(start: &str, rels: &[&str]) -> Vec<WalkEntry> {
    let mut entries = vec![WalkEntry { path: start.to_string(), is_dir: true, depth: 0 }];
    for rel in rels {
        entries.push(WalkEntry {
            path: format!("{start}/{rel}"),
            is_dir: true,
            depth: rel.split('/').count(),
        });
    }
    entries
}

fn rels(dirs: &[String]) -> Vec<String> {
    dirs.iter()
        .map(|p| p.strip_prefix(ROOT).unwrap().trim_start_matches('/').to_string())
        .collect()
}

#[test]
fn selection() {
    let spec = load_ignore(ROOT, Some("ignored.rs\n"));
    let entries = vec![
        dir(""),
        file("a.rs", 8),
        file("hello.py", 3),
        file(".envrc", 10),
        dir("node_modules"),
        file("node_modules/b.js", 1),
        file("photo.png", 1),
        file(".foo.py", 8),
        file("big.rs", 600 * 1024),
        file(".gitignore", 11),
        file("ignored.rs", 8),
    ];
    let ns = names(&iter_files(ROOT, &spec, &entries, MAX));

    assert!(ns.contains(&"a.rs".to_string()), "a.rs should be included");
    assert!(
        ns.contains(&"hello.py".to_string()),
        "hello.py should be included"
    );
    assert!(
        ns.contains(&".envrc".to_string()),
        ".envrc should be included"
    );
    assert!(
        ns.contains(&".foo.py".to_string()),
        "dotfile .foo.py should be included"
    );
    assert!(
        !ns.contains(&"b.js".to_string()),
        "b.js inside node_modules/ should be excluded"
    );
    assert!(
        !ns.contains(&"photo.png".to_string()),
        ".png should be excluded"
    );
    assert!(
        !ns.contains(&"big.rs".to_string()),
        "oversize file should be excluded"
    );
    assert!(
        !ns.contains(&"ignored.rs".to_string()),
        ".gitignore match should be excluded"
    );
}

#[test]
fn makefile_is_included() {
    let spec = load_ignore(ROOT, None);
    let entries = vec![file("Makefile", 4), file("Dockerfile", 12)];
    let ns = names(&iter_files(ROOT, &spec, &entries, MAX));
    assert!(ns.contains(&"Makefile".to_string()));
    assert!(ns.contains(&"Dockerfile".to_string()));
}

#[test]
fn extra_ignore_patterns_exclude_vendor_and_dist() {
    let spec = load_ignore(ROOT, None);
    let entries = vec![
        dir("vendor"),
        file("vendor/lib.rs", 1),
        dir("dist"),
        file("dist/bundle.js", 1),
    ];
    let ns = names(&iter_files(ROOT, &spec, &entries, MAX));
    assert!(
        !ns.contains(&"lib.rs".to_string()),
        "vendor/lib.rs should be excluded"
    );
    assert!(
        !ns.contains(&"bundle.js".to_string()),
        "dist/bundle.js should be excluded"
    );
}

#[test]
fn lock_files_excluded() {
    let spec = load_ignore(ROOT, None);
    let ns = names(&iter_files(ROOT, &spec, &vec![file("Cargo.lock", 6)], MAX));
    assert!(
        !ns.contains(&"Cargo.lock".to_string()),
        "*.lock should be excluded"
    );
}

#[test]
fn sizes_at_the_limit() {
    let spec = load_ignore(ROOT, None);
    let mut entries = vec![file("a.rs", MAX), file("b.rs", MAX + 1)];
    entries.push(Entry { path: format!("{ROOT}/c.rs"), is_file: true, len: None });
    assert_eq!(names(&iter_files(ROOT, &spec, &entries, MAX)), vec!["a.rs"]);
}

#[test]
fn extensions_go_by_lower_case() {
    assert!(is_indexable("/repo/A.RS"));
    assert!(is_indexable("/repo/sub/Justfile"));
    assert!(!is_indexable("/repo/justfile"));
    assert!(!is_indexable("/repo/.rs"));
    assert!(!is_indexable("/repo/.."));
}

#[test]
fn patterns_in_order() {
    let spec = load_ignore(ROOT, Some("# comment\n*.md\n!keep.md\r\n"));
    assert!(spec.is_ignored("a.md"));
    assert!(!spec.is_ignored("keep.md"));
    assert!(spec.is_ignored("target/debug/x.rs"));
    assert!(!spec.is_ignored("src/main.rs"));
    assert!(spec.is_ignored_dir("target"));
    assert!(!spec.is_ignored("target"));
    assert!(spec.can_match("a/b.rs"));
}

#[test]
fn directories_to_watch() {
    let spec = load_ignore(ROOT, None);
    assert!(keep_dir("/repo", true, ROOT, &spec));
    assert!(!keep_dir("/repo/a.rs", false, ROOT, &spec));
    assert!(!keep_dir("/repo/node_modules", true, ROOT, &spec));
    assert!(keep_dir("/elsewhere", true, ROOT, &spec));
}

#[test]
fn watch_dirs_includes_root_and_subdirs() {
    let spec = load_ignore(ROOT, None);
    let entries = tree(ROOT, &["src", "src/inner", "docs"]);
    let rels = rels(&watch_dirs_under(&entries, ROOT, &spec));

    assert!(rels.contains(&"".to_string()), "root itself must be watched");
    assert!(rels.contains(&"src".to_string()));
    assert!(rels.contains(&"src/inner".to_string()));
    assert!(rels.contains(&"docs".to_string()));
}

#[test]
fn watch_dirs_prunes_gitignored_dir_at_any_depth() {
    let spec = load_ignore(ROOT, Some("output/\nbuild/\n"));
    let entries = tree(
        ROOT,
        &["output", "output/checkpoint", "src", "src/build", "src/keep"],
    );
    let rels = rels(&watch_dirs_under(&entries, ROOT, &spec));

    assert!(rels.contains(&"src".to_string()));
    assert!(rels.contains(&"src/keep".to_string()));
    assert!(!rels.contains(&"output".to_string()), "gitignored output/ pruned");
    assert!(
        !rels.contains(&"output/checkpoint".to_string()),
        "children of a pruned dir are absent"
    );
    assert!(
        !rels.contains(&"src/build".to_string()),
        "build/ matches at any depth (gitignore semantics)"
    );
}

#[test]
fn watch_dirs_prunes_extra_ignore_dirs() {
    let spec = load_ignore(ROOT, None);
    let entries = tree(
        ROOT,
        &["node_modules", "node_modules/pkg", "target", "target/debug", "src"],
    );
    let rels = rels(&watch_dirs_under(&entries, ROOT, &spec));

    assert!(rels.contains(&"src".to_string()));
    assert!(!rels.contains(&"node_modules".to_string()));
    assert!(!rels.contains(&"node_modules/pkg".to_string()));
    assert!(!rels.contains(&"target".to_string()));
    assert!(!rels.contains(&"target/debug".to_string()));
}

#[test]
fn watch_dirs_includes_dotfile_dirs_but_not_extra_ignored_dotgit() {
    let spec = load_ignore(ROOT, None);
    let entries = tree(ROOT, &[".config", ".config/sub", ".git", ".git/objects"]);
    let rels = rels(&watch_dirs_under(&entries, ROOT, &spec));

    assert!(
        rels.contains(&".config".to_string()),
        "dotfile dir must be watched"
    );
    assert!(rels.contains(&".config/sub".to_string()));
    assert!(!rels.contains(&".git".to_string()), ".git/ is in EXTRA_IGNORE");
    assert!(!rels.contains(&".git/objects".to_string()));
}

#[test]
fn watch_dirs_under_starts_from_subdir_and_still_applies_root_ignore() {
    let spec = load_ignore(ROOT, Some("skip/\n"));
    let entries = tree("/repo/newmod", &["deep", "skip"]);
    let rels = rels(&watch_dirs_under(&entries, ROOT, &spec));

    assert!(rels.contains(&"newmod".to_string()));
    assert!(rels.contains(&"newmod/deep".to_string()));
    assert!(
        !rels.contains(&"newmod/skip".to_string()),
        "ignore applies relative to root even when walking a subtree"
    );
}

#[test]
fn files_in_a_walk_are_not_watched() {
    let spec = load_ignore(ROOT, None);
    let mut entries = tree(ROOT, &["src"]);
    entries.insert(1, WalkEntry { path: "/repo/a.rs".to_string(), is_dir: false, depth: 1 });
    assert_eq!(rels(&watch_dirs_under(&entries, ROOT, &spec)), vec!["", "src"]);
}

#[test]
fn files_of_the_right_kind() {
    assert!(takes_file(false, Some(3), 3));
    assert!(!takes_file(false, Some(4), 3));
    assert!(!takes_file(true, Some(1), 3));
    assert!(!takes_file(false, None, 3));
}

#[test]
fn odd_spellings_of_paths_can_be_asked_about() {
    let spec = load_ignore(ROOT, None);
    assert!(spec.can_match("a/b"));
    assert!(!spec.can_match("/a"));
    assert!(!index_repo::daemon::watch_keep(ROOT, &spec, "/repo/.//target//x.rs"));
    assert!(index_repo::daemon::watch_keep(ROOT, &spec, "/repo/.//src//x.rs"));
}
