use index_repo::chunkfile::chunks_for_file;
use index_repo::daemon::{
    build_path_to_ids, coalesce, collect_changes, evt_for, is_gone, keep_event, load_state, next_live_step,
    next_start_step, next_step, plan_changes, process_changes, state_of, watch_keep, ChangeKind,
    Evt, FileChange, FileState, LiveStep, Next, StartStep, Waited,
};
use index_repo::grammar::UsedGrammars;
use index_repo::ids::{IdSet, PathIds};
use index_repo::store::Meta;
use index_repo::walk::load_ignore;

const ROOT: &str = "/repo";

/// A root, its manifest and the shared store of chunks.
struct World {
    files: Vec<(String, Vec<u8>)>,
    path_to_ids: PathIds,
    all_ids: IdSet,
    manifest: Vec<String>,
    content: Vec<String>,
    write_fails: bool,
    add_fails: bool,
}

impl World {
    fn new() -> World {
        World {
            files: Vec::new(),
            path_to_ids: PathIds::new(),
            all_ids: IdSet::new(),
            manifest: Vec::new(),
            content: Vec::new(),
            write_fails: false,
            add_fails: false,
        }
    }

    fn put(&mut self, path: &str, content: &[u8]) {
        self.files.retain(|f| f.0 != path);
        self.files.push((path.to_string(), content.to_vec()));
    }

    fn state(&self, path: &str, delete: bool) -> FileState {
        let file = self.files.iter().find(|f| f.0 == path);
        let (ok, records) = match file {
            Some(f) if !is_gone(delete, true) => {
                let mut used = UsedGrammars::new();
                let (_, records, _, _, ok) =
                    chunks_for_file(path, ROOT, Some(f.1.clone()), &mut used);
                (ok, records)
            }
            _ => (false, Vec::new()),
        };
        state_of(delete, file.is_some(), ok, records)
    }

    fn apply(&mut self, changes: Vec<(Evt, String)>) -> (usize, usize) {
        let changes: Vec<FileChange> = coalesce(ROOT, &changes)
            .into_iter()
            .map(|a| FileChange { state: self.state(&a.path, a.delete), rel: a.rel })
            .collect();
        let plan = plan_changes(&changes, &self.path_to_ids, &self.all_ids);
        let (idle, new_records) = (plan.is_noop(), !plan.records().is_empty());
        let mut step = LiveStep::Begin;
        let (written, stored) = loop {
            let ok = match step {
                LiveStep::Begin | LiveStep::Embed => true,
                LiveStep::WriteManifest => {
                    if !self.write_fails {
                        self.manifest = plan.target().to_vec();
                    }
                    !self.write_fails
                }
                LiveStep::Add => {
                    let ids = plan.records().iter().map(|r| r.id.clone());
                    for id in ids.clone() {
                        assert!(self.manifest.contains(&id), "{id} is referred to first");
                    }
                    if !self.add_fails {
                        self.content.extend(ids);
                    }
                    !self.add_fails
                }
                LiveStep::End { written, stored } => break (written, stored),
            };
            step = next_live_step(step, ok, idle, new_records);
        };
        process_changes(plan, written, stored, &mut self.path_to_ids, &mut self.all_ids)
    }

    /// Indexes a file, as a scan would have.
    fn seed(&mut self, path: &str, content: &[u8]) -> Vec<String> {
        self.put(path, content);
        let ids = self.ids_now(path);
        self.content.extend(ids.iter().cloned());
        let rel = path.strip_prefix("/repo/").unwrap().to_string();
        self.path_to_ids.insert(rel, IdSet::of(&ids));
        for id in &ids {
            self.all_ids.insert(id.clone());
        }
        self.manifest = self.all_ids.to_vec();
        ids
    }

    fn ids_now(&self, path: &str) -> Vec<String> {
        match self.state(path, false) {
            FileState::Text(records) => records.iter().map(|r| r.id.clone()).collect(),
            _ => Vec::new(),
        }
    }

    fn ids_of(&self, rel: &str) -> Vec<String> {
        self.path_to_ids.get(rel).map(|s| s.to_vec()).unwrap_or_default()
    }
}

fn meta(path: &str, line: usize, node_type: &str) -> Meta {
    Meta {
        path: path.to_string(),
        line,
        lang: "rs".to_string(),
        node_type: node_type.to_string(),
        scope: String::new(),
    }
}

#[test]
fn build_path_to_ids_groups_by_path() {
    let metas = vec![
        ("id1".to_string(), meta("src/a.rs", 1, "function_item")),
        ("id2".to_string(), meta("src/a.rs", 10, "function_item")),
        ("id3".to_string(), meta("src/b.rs", 1, "struct_item")),
    ];

    let my_ids = IdSet::of(&vec!["id1".to_string(), "id2".to_string()]);
    let map = build_path_to_ids(&metas, &my_ids);
    assert_eq!(map.len(), 1);
    let mut ids = map.get("src/a.rs").unwrap().to_vec();
    ids.sort();
    assert_eq!(ids, vec!["id1".to_string(), "id2".to_string()]);
    assert!(
        !map.contains_key("src/b.rs"),
        "id3 is not in my_ids, so src/b.rs is not this root's"
    );
}

#[test]
fn ids_without_a_path_belong_to_no_file() {
    let my_ids = IdSet::of(&vec!["id1".to_string()]);
    let map = build_path_to_ids(&vec![("id1".to_string(), meta("", 1, "window"))], &my_ids);
    assert_eq!(map.len(), 0);
}

#[test]
fn delete_then_upsert_delta() {
    let mut w = World::new();
    let initial_ids = w.seed("/repo/a.py", b"def f():\n    return 1\n");
    assert!(!initial_ids.is_empty());

    let (added, deleted) = w.apply(vec![(Evt::Delete, "/repo/a.py".to_string())]);
    assert_eq!(added, 0, "delete should not add");
    assert_eq!(
        deleted,
        initial_ids.len(),
        "all original refs should be dropped"
    );
    assert!(
        !w.path_to_ids.contains_key("a.py"),
        "a.py removed from path_to_ids"
    );
    assert!(w.all_ids.is_empty(), "all_ids should be empty");
    assert!(
        w.manifest.is_empty(),
        "root manifest no longer references the pruned ids"
    );
    for id in &initial_ids {
        assert!(
            w.content.contains(id),
            "content chunk {id} survives in store"
        );
    }

    w.put("/repo/a.py", b"def g():\n    return 2\n");
    let (added2, _deleted2) = w.apply(vec![(Evt::Upsert, "/repo/a.py".to_string())]);

    assert!(added2 >= 1, "upsert should add at least 1 chunk");
    assert!(
        w.path_to_ids.contains_key("a.py"),
        "a.py re-added to path_to_ids"
    );
    for id in &w.ids_of("a.py") {
        assert!(w.all_ids.contains(id), "id {id} should be in all_ids");
        assert!(w.manifest.contains(id), "id {id} recorded in manifest");
        assert!(w.content.contains(id), "id {id} added to content store");
    }
}

#[test]
fn delete_wins_over_upsert_same_batch() {
    let mut w = World::new();
    let ids = w.seed("/repo/a.py", b"def f():\n    return 1\n");

    let (added, _deleted) = w.apply(vec![
        (Evt::Upsert, "/repo/a.py".to_string()),
        (Evt::Delete, "/repo/a.py".to_string()),
    ]);

    assert_eq!(added, 0, "delete wins — nothing should be added");
    assert!(
        !w.path_to_ids.contains_key("a.py"),
        "a.py should be gone from path_to_ids"
    );
    assert!(
        w.all_ids.is_empty(),
        "all_ids should be empty after delete wins"
    );
    assert!(w.manifest.is_empty(), "manifest emptied after delete wins");
    assert_eq!(w.content, ids, "content never deleted on prune");
}

#[test]
fn delete_event_prunes_directory_subtree() {
    let mut w = World::new();
    let both = vec!["ida".to_string(), "idb".to_string()];
    w.path_to_ids.insert("sub/a.rs".to_string(), IdSet::of(&vec!["ida".to_string()]));
    w.path_to_ids.insert("sub/b.rs".to_string(), IdSet::of(&vec!["idb".to_string()]));
    w.all_ids = IdSet::of(&both);
    w.content = both.clone();
    w.manifest = both.clone();

    let (added, deleted) = w.apply(vec![(Evt::Delete, "/repo/sub".to_string())]);

    assert_eq!(added, 0, "directory delete adds nothing");
    assert_eq!(deleted, 2, "both ids beneath sub/ are pruned");
    assert!(!w.all_ids.contains("ida"));
    assert!(!w.all_ids.contains("idb"));
    assert!(!w.path_to_ids.contains_key("sub/a.rs"));
    assert!(!w.path_to_ids.contains_key("sub/b.rs"));
    assert!(w.manifest.is_empty(), "manifest empty after subtree prune");
    assert_eq!(w.content, both, "content never deleted on prune");
}

#[test]
fn deletion_leaves_siblings_alone() {
    let mut w = World::new();
    w.path_to_ids.insert("sub/a.rs".to_string(), IdSet::of(&vec!["ida".to_string()]));
    w.path_to_ids.insert("subway.rs".to_string(), IdSet::of(&vec!["idb".to_string()]));
    w.all_ids = IdSet::of(&vec!["ida".to_string(), "idb".to_string()]);
    assert_eq!(w.apply(vec![(Evt::Delete, "/repo/sub".to_string())]), (0, 1));
    assert!(w.path_to_ids.contains_key("subway.rs"));
    assert_eq!(w.manifest, vec!["idb".to_string()]);
}

#[test]
fn upsert_rechunk_drops_stale_ids() {
    let mut w = World::new();
    let old_ids = w.seed("/repo/a.py", b"def f():\n    return 1\n");

    w.put("/repo/a.py", b"def g():\n    return 2\n");
    let (added, deleted) = w.apply(vec![(Evt::Upsert, "/repo/a.py".to_string())]);

    assert!(added >= 1, "the rechunked content is added");
    assert!(deleted >= 1, "the stale ids are dropped from this root");

    let new_ids = w.ids_of("a.py");
    for id in old_ids.iter().filter(|id| !new_ids.contains(id)) {
        assert!(!w.all_ids.contains(id), "stale id {id} gone from all_ids");
        assert!(
            !w.manifest.contains(id),
            "stale id {id} gone from manifest"
        );
    }
    for id in &new_ids {
        assert!(w.all_ids.contains(id), "new id {id} present in all_ids");
        assert!(w.manifest.contains(id), "new id {id} present in manifest");
        assert!(w.content.contains(id), "new id {id} added to content store");
    }
}

#[test]
fn updates_converge_to_a_scan() {
    let mut w = World::new();
    w.seed("/repo/a.py", b"def f():\n    return 1\n");
    w.seed("/repo/sub/b.py", b"def g():\n    return 2\n");
    w.seed("/repo/c.txt", b"text");
    w.put("/repo/a.py", b"def f():\n    return 3\n\ndef h():\n    return 4\n");
    w.files.retain(|f| f.0 != "/repo/sub/b.py");
    w.put("/repo/d.txt", b"new");
    w.apply(vec![
        (Evt::Upsert, "/repo/a.py".to_string()),
        (Evt::Upsert, "/repo/sub/b.py".to_string()),
        (Evt::Upsert, "/repo/d.txt".to_string()),
        (Evt::Upsert, "/elsewhere/x.py".to_string()),
    ]);
    let mut want: Vec<String> = Vec::new();
    for path in ["/repo/a.py", "/repo/c.txt", "/repo/d.txt"] {
        let mut ids = w.ids_now(path);
        want.extend(ids.iter().cloned());
        let mut have = w.ids_of(path.strip_prefix("/repo/").unwrap());
        ids.sort();
        have.sort();
        assert_eq!(have, ids, "{path}");
    }
    assert!(!w.path_to_ids.contains_key("sub/b.py"));
    let mut have = w.all_ids.to_vec();
    want.sort();
    have.sort();
    assert_eq!(have, want);
}

#[test]
fn unchanged_file_asks_for_nothing() {
    let mut w = World::new();
    w.seed("/repo/a.py", b"def f():\n    return 1\n");
    w.manifest.clear();
    assert_eq!(w.apply(vec![(Evt::Upsert, "/repo/a.py".to_string())]), (0, 0));
    assert!(w.manifest.is_empty(), "the manifest was not written");
}

#[test]
fn binary_file_changes_nothing() {
    let mut w = World::new();
    let ids = w.seed("/repo/a.py", b"def f():\n    return 1\n");
    w.put("/repo/a.py", b"\x00");
    assert_eq!(w.apply(vec![(Evt::Upsert, "/repo/a.py".to_string())]), (0, 0));
    assert_eq!(w.ids_of("a.py"), ids);
}

#[test]
fn failed_manifest_write_leaves_the_state() {
    let mut w = World::new();
    let ids = w.seed("/repo/a.py", b"def f():\n    return 1\n");
    w.put("/repo/a.py", b"def g():\n    return 2\n");
    w.write_fails = true;
    assert_eq!(w.apply(vec![(Evt::Upsert, "/repo/a.py".to_string())]), (0, 0));
    assert_eq!(w.ids_of("a.py"), ids);
    assert_eq!(w.content, ids);
}

#[test]
fn evt_for_mapping_unchanged() {
    assert!(matches!(evt_for(&ChangeKind::Remove), Some(Evt::Delete)));
    assert!(matches!(evt_for(&ChangeKind::Create), Some(Evt::Upsert)));
    assert!(matches!(evt_for(&ChangeKind::Modify), Some(Evt::Upsert)));
    assert!(evt_for(&ChangeKind::Access).is_none());
}

#[test]
fn other_kinds_make_no_change() {
    assert!(evt_for(&ChangeKind::Any).is_none());
    assert!(evt_for(&ChangeKind::Other).is_none());
}

#[test]
fn watch_keep_filters() {
    let spec = load_ignore(ROOT, None);

    assert!(watch_keep(ROOT, &spec, "/repo/foo.rs"));
    assert!(!watch_keep(ROOT, &spec, "/repo/image.png"));
    assert!(watch_keep(ROOT, &spec, "/repo/Makefile"));
    assert!(!watch_keep(ROOT, &spec, "/tmp/outside.rs"));
    assert!(watch_keep(ROOT, &spec, "/repo/ghost.rs"));
}

#[test]
fn keep_event_lets_deletes_bypass_filter() {
    let spec = load_ignore(ROOT, None);

    let dir = "/repo/sub";
    assert!(
        !watch_keep(ROOT, &spec, dir),
        "precondition: upsert filter rejects the directory path"
    );
    assert!(
        keep_event(ROOT, &spec, dir, &Evt::Delete),
        "deletes bypass the filter so directory removals still prune"
    );
    assert!(
        !keep_event(ROOT, &spec, dir, &Evt::Upsert),
        "upserts keep the file-selection filter"
    );
    assert!(
        keep_event(ROOT, &spec, dir, &Evt::Resync),
        "resync always passes"
    );
}

#[test]
fn events_become_changes() {
    let spec = load_ignore(ROOT, Some("*.md\n"));
    let events = vec![
        (ChangeKind::Modify, "/repo/a.rs".to_string()),
        (ChangeKind::Access, "/repo/a.rs".to_string()),
        (ChangeKind::Create, "/repo/a.md".to_string()),
        (ChangeKind::Remove, "/repo/b.md".to_string()),
        (ChangeKind::Remove, "/other".to_string()),
    ];
    assert_eq!(
        collect_changes(ROOT, &spec, &events),
        vec![
            (Evt::Upsert, "/repo/a.rs".to_string()),
            (Evt::Delete, "/repo/b.md".to_string()),
        ]
    );
}

#[test]
fn failed_add_records_membership_but_lands_no_content() {
    let mut w = World::new();
    w.put("/repo/a.py", b"def f():\n    return 1\n");
    w.add_fails = true;
    let (added, _deleted) = w.apply(vec![(Evt::Upsert, "/repo/a.py".to_string())]);

    assert_eq!(
        added, 0,
        "a failed add contributes nothing to the add count"
    );
    assert!(w.content.is_empty(), "no content lands when the add fails");

    let seen = w.ids_of("a.py");
    assert!(!seen.is_empty(), "membership was recorded before the add");
    for id in &seen {
        assert!(w.manifest.contains(id), "id {id} pre-written to manifest");
        assert!(w.all_ids.contains(id), "id {id} recorded in all_ids");
    }
}

#[test]
fn what_the_live_indexer_does_next() {
    assert_eq!(next_step(Waited::Stopped, 9_999), Next::Exit(0));
    assert_eq!(next_step(Waited::Events, 0), Next::Apply);
    assert_eq!(next_step(Waited::Errors, 0), Next::Exit(4));
    assert_eq!(next_step(Waited::Timeout, 2_699), Next::Wait);
    assert_eq!(next_step(Waited::Timeout, 2_700), Next::Resync);
    assert_eq!(next_step(Waited::Disconnected, 9_999), Next::Exit(0));
}

/// The steps of a batch, given which of them succeed.
fn live_steps(outcomes: &[bool], idle: bool, new_records: bool) -> Vec<LiveStep> {
    let mut all = vec![LiveStep::Begin];
    for ok in outcomes {
        all.push(next_live_step(all[all.len() - 1], *ok, idle, new_records));
    }
    all
}

#[test]
fn manifest_is_written_once_and_before_any_add() {
    for bits in 0..32u32 {
        let outcomes: Vec<bool> = (0..5).map(|k| bits & (1 << k) != 0).collect();
        for idle in [false, true] {
            for new_records in [false, true] {
                let all = live_steps(&outcomes, idle, new_records);
                let write = all.iter().position(|s| *s == LiveStep::WriteManifest);
                let writes = all.iter().filter(|s| **s == LiveStep::WriteManifest).count();
                assert_eq!(writes, usize::from(!idle));
                if let Some(add) = all.iter().position(|s| *s == LiveStep::Add) {
                    let write = write.unwrap();
                    assert!(write < add && outcomes[write] && new_records);
                }
            }
        }
    }
}

#[test]
fn steps_of_a_batch() {
    let end = |written: bool, stored: bool| LiveStep::End { written, stored };
    assert_eq!(live_steps(&[true], true, false), vec![LiveStep::Begin, end(false, false)]);
    assert_eq!(
        live_steps(&[true; 5], false, true),
        vec![
            LiveStep::Begin,
            LiveStep::WriteManifest,
            LiveStep::Embed,
            LiveStep::Add,
            end(true, true),
            end(true, true),
        ]
    );
    assert_eq!(live_steps(&[true, false], false, true)[2], end(false, false));
    assert_eq!(live_steps(&[true, true], false, false)[2], end(true, false));
    assert_eq!(live_steps(&[true, true, false], false, true)[3], end(true, false));
    assert_eq!(live_steps(&[true, true, true, false], false, true)[4], end(true, false));
}

#[test]
fn what_was_found_of_a_file() {
    assert!(matches!(state_of(true, true, true, Vec::new()), FileState::Gone));
    assert!(matches!(state_of(false, false, true, Vec::new()), FileState::Gone));
    assert!(matches!(state_of(false, true, false, Vec::new()), FileState::Binary));
    assert!(matches!(state_of(false, true, true, Vec::new()), FileState::Text(v) if v.is_empty()));
    assert!(is_gone(true, true) && is_gone(false, false) && !is_gone(false, true));
}

#[test]
fn how_the_live_indexer_starts() {
    assert_eq!(next_start_step(StartStep::Scan, true), StartStep::MakeWatcher);
    assert_eq!(next_start_step(StartStep::Scan, false), StartStep::Fail);
    assert_eq!(next_start_step(StartStep::MakeWatcher, true), StartStep::WatchRoot);
    assert_eq!(next_start_step(StartStep::MakeWatcher, false), StartStep::Exit(4));
    assert_eq!(next_start_step(StartStep::WatchRoot, true), StartStep::Listen);
    assert_eq!(next_start_step(StartStep::WatchRoot, false), StartStep::Exit(4));
    assert_eq!(next_start_step(StartStep::Exit(4), true), StartStep::Exit(4));
}

#[test]
fn what_cannot_be_fetched_counts_as_empty() {
    let ids = || Some(IdSet::of(&vec!["id1".to_string()]));
    let pairs = || Some(vec![("id1".to_string(), meta("a.rs", 1, "window"))]);
    let (paths, all) = load_state(ids(), pairs());
    assert_eq!(paths.get("a.rs").unwrap().to_vec(), vec!["id1".to_string()]);
    assert_eq!(all.len(), 1);
    let (paths, all) = load_state(None, pairs());
    assert!(paths.get("a.rs").is_none() && all.is_empty());
    let (paths, all) = load_state(ids(), None);
    assert!(paths.get("a.rs").is_none() && all.len() == 1);
}
