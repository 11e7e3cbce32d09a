use index_repo::chunkfile::chunks_for_file;
use index_repo::daemon::{ChangeKind, Evt, Next, Waited};
use index_repo::grammar::UsedGrammars;
use index_repo::ids::IdSet;
use index_repo::manifest::{
    all_ids, fields_of_part, manifest_parts, read, row_of, ManifestRow,
};
use index_repo::oneshot::OneShot;
use index_repo::service::{
    count_dropped, due, gc_decide, gc_orphans, gc_sweep, gitignore_root, next_actor_step,
    next_doomed, next_orphan_step, next_serve_step, next_step, orphan_targets, reconcile, reconcile_diff, route, route_all, split_finished,
    ActorStep, Dispatch, OrphanStep, Outcome, Received, Running, ServeStep,
};
use index_repo::store::{CollectionInfo, Stats};
use index_repo::walk::load_ignore;

fn texts(list: &[&str]) -> Vec<String> {
    list.iter().map(|s| s.to_string()).collect()
}

#[test]
fn route_picks_deepest_nested_root() {
    let roots = texts(&["/a", "/a/b"]);
    assert_eq!(
        route("/a/b/c.rs", &roots),
        Some(&"/a/b".to_string()),
        "deepest root must win"
    );
    assert_eq!(
        route("/a/x.rs", &roots),
        Some(&"/a".to_string()),
        "shallow file routes to /a"
    );
}

#[test]
fn route_none_when_unrelated() {
    let roots = texts(&["/a", "/a/b"]);
    assert_eq!(route("/z/y.rs", &roots), None);
}

#[test]
fn route_all_returns_every_ancestor() {
    let roots = texts(&["/repo", "/repo/sub"]);
    let mut got = route_all("/repo/sub/x.rs", &roots);
    got.sort();
    assert_eq!(
        got,
        vec![&"/repo".to_string(), &"/repo/sub".to_string()],
        "nested file must route to both ancestors"
    );

    let disjoint = texts(&["/a", "/b"]);
    assert_eq!(
        route_all("/a/x.rs", &disjoint),
        vec![&"/a".to_string()],
        "disjoint file routes to exactly one root"
    );

    assert!(route_all("/z/y.rs", &roots).is_empty());
}

#[test]
fn route_component_wise_no_false_prefix() {
    let roots = texts(&["/a/bb"]);
    assert_eq!(route("/a/b/c.rs", &roots), None);
}

#[test]
fn route_takes_the_last_of_equals() {
    let roots = texts(&["/a/b", "/a//b/", "/a"]);
    assert_eq!(route("/a/b/c", &roots), Some(&"/a//b/".to_string()));
    assert!(route_all("/a/b/c", &roots).contains(&&"/a//b/".to_string()));
}

#[test]
fn gitignore_root_matches_each_roots_own_gitignore() {
    let roots = texts(&["/repo", "/repo/sub"]);
    assert_eq!(
        gitignore_root("/repo/.gitignore", &roots),
        Some(&"/repo".to_string())
    );
    assert_eq!(
        gitignore_root("/repo/sub/.gitignore", &roots),
        Some(&"/repo/sub".to_string()),
        "each root's own .gitignore maps to that root"
    );
}

#[test]
fn gitignore_root_rejects_nested_and_non_gitignore() {
    let roots = texts(&["/repo"]);
    assert_eq!(
        gitignore_root("/repo/src/.gitignore", &roots),
        None,
        "a nested .gitignore is not a reload trigger"
    );
    assert_eq!(
        gitignore_root("/repo/src/main.rs", &roots),
        None,
        "an ordinary file is not a .gitignore"
    );
    assert_eq!(
        gitignore_root("/other/.gitignore", &roots),
        None,
        "a .gitignore whose parent is not a registered root is ignored"
    );
}

#[test]
fn reconcile_diff_add_remove_noop() {
    let current = texts(&["/a", "/b"]);
    let desired = texts(&["/b", "/c"]);
    let (start, stop) = reconcile_diff(&desired, &current);

    assert_eq!(start, texts(&["/c"]), "/c is new");
    assert_eq!(stop, texts(&["/a"]), "/a is gone");
}

#[test]
fn reconcile_diff_empty_cases() {
    let (start, stop) = reconcile_diff(&texts(&["/a"]), &[]);
    assert_eq!(start, texts(&["/a"]));
    assert!(stop.is_empty());

    let (start, stop) = reconcile_diff(&[], &texts(&["/a"]));
    assert!(start.is_empty());
    assert_eq!(stop, texts(&["/a"]));
}

#[test]
fn reconcile_starts_with_collections() {
    let live = vec![
        ("/a".to_string(), "code-a".to_string()),
        ("/b".to_string(), "code-b".to_string()),
    ];
    let (start, stop) = reconcile(&live, &texts(&["/b/", "/c"]));
    assert_eq!(start, vec![("/a".to_string(), "code-a".to_string())]);
    assert_eq!(stop, texts(&["/c"]));
}

#[test]
fn finished_actors_are_forgotten() {
    let actors = vec![
        Running { root: "/a".to_string(), finished: true },
        Running { root: "/b".to_string(), finished: false },
        Running { root: "/c".to_string(), finished: true },
    ];
    let (dead, alive) = split_finished(&actors);
    assert_eq!(dead, texts(&["/a", "/c"]));
    assert_eq!(alive, texts(&["/b"]));
}

fn ci(name: &str, index_repo: bool, last_indexed: Option<u64>) -> CollectionInfo {
    CollectionInfo {
        id: format!("id-{name}"),
        name: name.to_string(),
        index_repo,
        last_indexed,
    }
}

#[test]
fn gc_decide_drops_only_marked_and_stale() {
    let now = 1_000_000_000u64;
    let ttl = 30 * 86_400u64;
    let cols = vec![
        ci("code-stale", true, Some(now - ttl - 1)),
        ci("code-fresh", true, Some(now - ttl + 1)),
        ci("foreign-stale", false, Some(now - ttl - 1)),
        ci("code-nots", true, None),
    ];
    assert_eq!(gc_decide(&cols, now, ttl), vec!["code-stale".to_string()]);
}

#[test]
fn gc_decide_boundary_is_kept() {
    let now = 1_000_000_000u64;
    let ttl = 100u64;
    assert!(gc_decide(&[ci("c", true, Some(now - ttl))], now, ttl).is_empty());
    assert_eq!(
        gc_decide(&[ci("c", true, Some(now - ttl - 1))], now, ttl),
        vec!["c".to_string()]
    );
}

#[test]
fn gc_decide_ttl_zero_disables() {
    let now = 1_000_000_000u64;
    assert!(gc_decide(&[ci("code-ancient", true, Some(0))], now, 0).is_empty());
}

#[test]
fn gc_decide_future_timestamp_kept() {
    let now = 1_000u64;
    assert!(gc_decide(&[ci("c", true, Some(now + 10_000))], now, 100).is_empty());
}

/// Drops what a sweep says is to be dropped.
fn sweep(cols: &mut Vec<CollectionInfo>, now: u64, ttl: u64, dry_run: bool) -> usize {
    let doomed = gc_sweep(cols, now, ttl, dry_run);
    let mut outcomes = Vec::new();
    while let Some(i) = next_doomed(&doomed, &outcomes) {
        let before = cols.len();
        if doomed[i].drop {
            cols.retain(|c| c.name != doomed[i].name);
        }
        outcomes.push(cols.len() < before);
    }
    count_dropped(&doomed, &outcomes)
}

#[test]
fn a_sweep_goes_on_after_a_failure() {
    let cols = vec![
        ci("a", true, Some(0)),
        ci("b", true, Some(0)),
        ci("c", true, Some(0)),
    ];
    let doomed = gc_sweep(&cols, 1_000, 1, false);
    assert_eq!(next_doomed(&doomed, &[]), Some(0));
    assert_eq!(next_doomed(&doomed, &[false]), Some(1));
    assert_eq!(next_doomed(&doomed, &[false, true]), Some(2));
    assert_eq!(next_doomed(&doomed, &[false, true, true]), None);
    assert_eq!(count_dropped(&doomed, &[false, true, true]), 2);
    let dry = gc_sweep(&cols, 1_000, 1, true);
    assert_eq!(count_dropped(&dry, &[true, true, true]), 0);
}

#[test]
fn gc_sweep_deletes_stale_and_reports_count() {
    let now = 1_000_000_000u64;
    let ttl = 30 * 86_400u64;
    let mut cols = vec![
        ci("code-stale", true, Some(now - ttl - 1)),
        ci("code-fresh", true, Some(now)),
        ci("foreign", false, Some(0)),
    ];
    let dropped = sweep(&mut cols, now, ttl, false);
    assert_eq!(dropped, 1);
    let left: Vec<String> = cols.iter().map(|c| c.name.clone()).collect();
    assert_eq!(left, vec!["code-fresh".to_string(), "foreign".to_string()]);
}

#[test]
fn gc_sweep_dry_run_deletes_nothing() {
    let now = 1_000_000_000u64;
    let ttl = 30 * 86_400u64;
    let mut cols = vec![ci("code-stale", true, Some(now - ttl - 1))];
    let dropped = sweep(&mut cols, now, ttl, true);
    assert_eq!(dropped, 0, "dry-run drops nothing");
    assert_eq!(cols.len(), 1, "collection still present");
}

#[test]
fn gc_sweep_reports_idle_days() {
    let now = 1_000_000_000u64;
    let cols = vec![ci("c", true, Some(now - 3 * 86_400 + 1)), ci("d", true, Some(0))];
    let doomed = gc_sweep(&cols, now, 100, true);
    assert_eq!(doomed[0].name, "c");
    assert_eq!(doomed[0].idle_days, 2);
    assert_eq!(doomed[1].idle_days, now / 86_400);
    assert!(!doomed[1].drop);
}

fn ids(list: &[&str]) -> IdSet {
    IdSet::of(&texts(list))
}

#[test]
fn orphans_are_swept_and_referenced_kept() {
    let content = ids(&["a", "b", "c", "d", "e"]);
    let mut gone = gc_orphans(&content, &ids(&["a", "c", "d", "z"]));
    gone.sort();
    assert_eq!(gone, texts(&["b", "e"]));
}

#[test]
fn orphan_sweep_guards() {
    let content = ids(&["a", "b", "c", "d"]);
    assert!(gc_orphans(&content, &ids(&[])).is_empty(), "nothing is referenced");
    assert!(gc_orphans(&content, &ids(&["a", "b"])).is_empty(), "half would go");
    assert_eq!(gc_orphans(&content, &ids(&["a", "b", "c"])), texts(&["d"]));
    assert!(gc_orphans(&content, &ids(&["a", "b", "c", "d"])).is_empty());
}

#[test]
fn events_are_dispatched() {
    let roots = texts(&["/repo", "/repo/sub", "/new"]);
    let patterns = vec![
        Some(load_ignore("/repo", None)),
        Some(load_ignore("/repo/sub", Some("skip.rs\n"))),
        None,
    ];
    let mut d = Dispatch::new(3);
    let dir = "/run/index-repo/roots";
    assert_eq!(d.take(dir, &roots, &patterns, &ChangeKind::Modify, "/repo/sub/x.rs"), None);
    assert_eq!(d.take(dir, &roots, &patterns, &ChangeKind::Remove, "/repo/sub/skip.rs"), None);
    assert_eq!(d.take(dir, &roots, &patterns, &ChangeKind::Access, "/repo/y.rs"), None);
    assert_eq!(d.take(dir, &roots, &patterns, &ChangeKind::Create, "/new/y.rs"), None);
    assert_eq!(d.take(dir, &roots, &patterns, &ChangeKind::Modify, "/repo/sub/.gitignore"), Some(1));
    assert!(!d.registry_changed());
    assert_eq!(d.take(dir, &roots, &patterns, &ChangeKind::Create, "/run/index-repo/roots/x.1"), None);
    assert!(d.registry_changed());
    let batches = d.into_batches();
    assert_eq!(
        batches,
        vec![
            vec![
                (Evt::Upsert, "/repo/sub/x.rs".to_string()),
                (Evt::Delete, "/repo/sub/skip.rs".to_string()),
            ],
            vec![(Evt::Upsert, "/repo/sub/x.rs".to_string())],
            vec![],
        ]
    );
}

#[test]
fn what_is_due() {
    let d = due(29, 21_599, 1);
    assert!(!d.reconcile && !d.sweep_clock && !d.sweep);
    let d = due(30, 21_600, 1);
    assert!(d.reconcile && d.sweep_clock && d.sweep);
    let d = due(0, 21_600, 0);
    assert!(!d.reconcile && d.sweep_clock && !d.sweep);
}

#[test]
fn service_survives_watch_errors() {
    assert_eq!(next_step(Waited::Stopped), Next::Exit(0));
    assert_eq!(next_step(Waited::Events), Next::Apply);
    assert_eq!(next_step(Waited::Errors), Next::Wait);
    assert_eq!(next_step(Waited::Timeout), Next::Wait);
    assert_eq!(next_step(Waited::Disconnected), Next::Exit(0));
}

#[test]
fn sweep_spares_what_manifests_refer_to() {
    let row = |root: &str, doc: &str| ManifestRow {
        roothash: root.to_string(),
        gen: 1,
        doc: Some(doc.to_string()),
    };
    let rows = vec![row("x", "a\nb"), row("y", "b\nc")];
    let content = ids(&["a", "b", "c", "orphan"]);
    assert_eq!(gc_orphans(&content, &all_ids(&rows)), texts(&["orphan"]));
}

#[test]
fn gc_e2e_drops_only_stale_marked() {
    let now = 1_700_000_000u64;
    let day = 86_400u64;
    let ttl = 30 * day;
    let mut cols = vec![
        ci("code-gc-e2e-stale", true, Some(now - 40 * day)),
        ci("code-gc-e2e-fresh", true, Some(now)),
        ci("gc-e2e-foreign", false, None),
    ];
    let doomed = gc_decide(&cols, now, ttl);
    assert!(
        doomed.contains(&"code-gc-e2e-stale".to_string()),
        "stale must be doomed; doomed={doomed:?}"
    );
    assert!(!doomed.contains(&"code-gc-e2e-fresh".to_string()), "fresh must survive");
    assert!(
        !doomed.contains(&"gc-e2e-foreign".to_string()),
        "foreign (unmarked) must survive"
    );

    cols.retain(|c| !doomed.contains(&c.name));
    let after: Vec<&str> = cols.iter().map(|c| c.name.as_str()).collect();
    assert!(!after.contains(&"code-gc-e2e-stale"), "stale must be gone after sweep");
    assert!(after.contains(&"code-gc-e2e-fresh"), "fresh must remain");
    assert!(after.contains(&"gc-e2e-foreign"), "foreign must remain");
}

/// A collection and the manifest of one root.
struct Shared {
    content: Vec<String>,
    rows: Vec<ManifestRow>,
    gen: u64,
}

impl Shared {
    /// Scans the files of the root: chunks are added, none is deleted, and the manifest
    /// is rewritten.
    fn index(&mut self, files: &[(String, String)]) -> Stats {
        let mut used = UsedGrammars::new();
        let mut run = OneShot::new(IdSet::of(&self.content));
        for (path, source) in files {
            let bytes = source.clone().into_bytes();
            let (_, records, ts, win, ok) = chunks_for_file(path, "/repo", Some(bytes), &mut used);
            for batch in run.take_file(records, ts, win, ok) {
                run.note_added(batch.len());
                self.content.extend(batch.into_iter().map(|r| r.id));
            }
        }
        for batch in run.finish() {
            run.note_added(batch.len());
            self.content.extend(batch.into_iter().map(|r| r.id));
        }
        self.gen += 1;
        self.rows = manifest_parts("rh", self.gen, &run.membership().to_vec(), 4)
            .into_iter()
            .map(|p| row_of(&fields_of_part("rh", "/repo", self.gen, p.part), Some(p.body)))
            .collect();
        run.stats()
    }

    fn sweep(&mut self) -> usize {
        let gone = gc_orphans(&IdSet::of(&self.content), &all_ids(&self.rows));
        self.content.retain(|id| !gone.contains(id));
        gone.len()
    }

    fn manifest_ids(&self) -> Vec<String> {
        let mut ids = read(&self.rows, "rh").to_vec();
        ids.sort();
        ids
    }

    fn content_ids(&self) -> Vec<String> {
        let mut ids = self.content.clone();
        ids.sort();
        ids
    }
}

#[test]
fn gc_e2e_orphan_reclaimed_referenced_kept() {
    let mut files: Vec<(String, String)> = (0..6)
        .map(|i| {
            let a = format!("fn keep_a{i}() {{\n    let x = {i};\n    x + 1\n}}\n");
            let b = format!("fn keep_b{i}() {{\n    let y = {i};\n    y * 2\n}}\n");
            (format!("/repo/keep{i}.rs"), a + &b)
        })
        .collect();
    files.push((
        "/repo/drop.rs".to_string(),
        "fn drop_me() {\n    let y = 2;\n    y * 2\n}\n".to_string(),
    ));
    let mut shared = Shared { content: Vec::new(), rows: Vec::new(), gen: 0 };
    let added = shared.index(&files).added;
    assert!(added >= 7, "every fixture file should chunk; added={added}");
    assert!(!shared.content.is_empty(), "content collection must hold chunks");
    let all_before = shared.manifest_ids();
    assert_eq!(
        shared.content_ids(),
        all_before,
        "fresh single-root index: content ids equal this root's manifest ids"
    );

    files.pop();
    let restats = shared.index(&files);
    assert_eq!(restats.deleted, 0, "one_shot must never delete content");
    let keep_ids = shared.manifest_ids();
    let orphans: Vec<&String> = all_before.iter().filter(|id| !keep_ids.contains(id)).collect();
    assert!(
        !orphans.is_empty(),
        "removing drop.rs must leave unreferenced chunks"
    );
    assert!(!keep_ids.is_empty(), "the kept files stay referenced");
    assert_eq!(shared.content_ids(), all_before, "a scan deletes no content");

    assert!(
        (orphans.len() as f64) < shared.content.len() as f64 * 0.5,
        "fixture must leave the orphan share under the ratio guard"
    );

    let reclaimed = shared.sweep();
    assert_eq!(
        reclaimed,
        orphans.len(),
        "gc_orphans reclaims exactly the unreferenced chunks"
    );
    assert_eq!(
        shared.content_ids(),
        keep_ids,
        "content collapses to the referenced set"
    );
}

#[test]
fn gc_e2e_empty_manifest_guard_returns_zero() {
    let files =
        vec![("/repo/a.rs".to_string(), "fn a() {\n    let z = 3;\n    z - 1\n}\n".to_string())];
    let mut shared = Shared { content: Vec::new(), rows: Vec::new(), gen: 0 };
    shared.index(&files);
    let before = shared.content_ids();
    assert!(!before.is_empty(), "content collection must be non-empty");

    shared.rows.clear();
    assert!(
        all_ids(&shared.rows).is_empty(),
        "manifest union must be empty for the guard case"
    );
    assert_eq!(shared.sweep(), 0, "empty-manifest guard must reclaim nothing");
    assert_eq!(
        shared.content_ids(),
        before,
        "guard must leave the content collection untouched"
    );
}

#[test]
fn orphans_are_looked_for_where_nothing_is_dropped() {
    let now = 1_700_000_000u64;
    let day = 86_400u64;
    let cols = vec![
        ci("code-stale", true, Some(now - 40 * day)),
        ci("code-fresh", true, Some(now)),
        ci("code-unstamped", true, None),
        ci("foreign", false, Some(now)),
    ];
    let kept = texts(&["code-fresh", "code-unstamped"]);
    assert_eq!(orphan_targets(&cols, now, 30 * day, false), kept);
    assert!(orphan_targets(&cols, now, 30 * day, true).is_empty());
    let dropped = gc_decide(&cols, now, 30 * day);
    assert!(dropped.iter().all(|name| !kept.contains(name)));
    assert_eq!(
        orphan_targets(&cols, now, 0, false),
        texts(&["code-stale", "code-fresh", "code-unstamped"])
    );
}

#[test]
fn how_the_service_starts() {
    let next = next_serve_step;
    assert_eq!(next(ServeStep::Lock, Outcome::Done), ServeStep::MakeWatcher);
    assert_eq!(next(ServeStep::Lock, Outcome::Busy), ServeStep::Exit(0));
    assert_eq!(next(ServeStep::Lock, Outcome::Failed), ServeStep::Fail);
    assert_eq!(next(ServeStep::MakeWatcher, Outcome::Done), ServeStep::WatchRegistry);
    assert_eq!(next(ServeStep::MakeWatcher, Outcome::Failed), ServeStep::Exit(4));
    assert_eq!(next(ServeStep::WatchRegistry, Outcome::Failed), ServeStep::Reconcile);
    assert_eq!(next(ServeStep::Reconcile, Outcome::Done), ServeStep::Listen);
    assert_eq!(next(ServeStep::Reconcile, Outcome::Failed), ServeStep::Fail);
}

#[test]
fn what_the_thread_of_a_root_does() {
    let next = next_actor_step;
    let none = Received::Nothing;
    assert_eq!(next(ActorStep::Open, true, none), ActorStep::Scan);
    assert_eq!(next(ActorStep::Open, false, none), ActorStep::Stop);
    assert_eq!(next(ActorStep::Scan, true, none), ActorStep::Touch);
    assert_eq!(next(ActorStep::Scan, false, none), ActorStep::Stop);
    assert_eq!(next(ActorStep::Touch, true, none), ActorStep::Wait);
    assert_eq!(next(ActorStep::Wait, true, Received::Batch), ActorStep::Apply);
    assert_eq!(next(ActorStep::Wait, true, none), ActorStep::Touch);
    assert_eq!(next(ActorStep::Wait, true, Received::Closed), ActorStep::Stop);
    assert_eq!(next(ActorStep::Apply, true, none), ActorStep::Touch);
}

#[test]
fn steps_of_an_orphan_sweep() {
    let mut steps = vec![OrphanStep::Open];
    while steps[steps.len() - 1] != OrphanStep::Done {
        steps.push(next_orphan_step(steps[steps.len() - 1], true));
    }
    assert_eq!(
        steps,
        vec![
            OrphanStep::Open,
            OrphanStep::ListContent,
            OrphanStep::ListReferences,
            OrphanStep::Delete,
            OrphanStep::Done,
        ]
    );
    for step in &steps[..4] {
        assert_eq!(next_orphan_step(*step, false), OrphanStep::Fail);
    }
}
