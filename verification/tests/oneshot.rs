use index_repo::chunkfile::chunks_for_file;
use index_repo::grammar::UsedGrammars;
use index_repo::ids::IdSet;
use index_repo::oneshot::{next_scan_step, OneShot, Progress, ScanStep};
use index_repo::store::{Meta, Record, Stats};

/// A store that keeps only ids.
struct Ids {
    ids: Vec<String>,
    deleted: Vec<String>,
    fetch_fails: bool,
    model: bool,
}

impl Ids {
    fn new(ids: &[&str]) -> Ids {
        Ids {
            ids: ids.iter().map(|s| s.to_string()).collect(),
            deleted: Vec::new(),
            fetch_fails: false,
            model: false,
        }
    }

    fn existing_ids(&self) -> Result<IdSet, String> {
        if self.fetch_fails {
            Err("simulated backend error".to_string())
        } else {
            Ok(IdSet::of(&self.ids))
        }
    }
}

/// Scans the files into the store.
fn scan(store: &mut Ids, files: &[(&str, &[u8])]) -> Stats {
    scan_with(store, files, false).0
}

/// Scans the files into the store; with a manifest, returns what it holds in the end.
fn scan_with(
    store: &mut Ids,
    files: &[(&str, &[u8])],
    manifest: bool,
) -> (Stats, Option<Vec<String>>) {
    let mut used = UsedGrammars::new();
    let mut run = OneShot::start(store.existing_ids().ok());
    let mut files = files.iter().peekable();
    let mut batches: Vec<Vec<Record>> = Vec::new();
    let mut stale: Vec<Vec<String>> = Vec::new();
    let mut written: Option<Vec<String>> = None;
    let mut step = ScanStep::Begin;
    loop {
        match step {
            ScanStep::Begin => {}
            ScanStep::TakeFile => {
                let (path, content) = files.next().unwrap();
                let (_, records, ts, win, ok) =
                    chunks_for_file(path, "/repo", Some(content.to_vec()), &mut used);
                batches.extend(run.take_file(records, ts, win, ok));
            }
            ScanStep::LoadModel { .. } => {
                assert!(!store.model, "the model is loaded once");
                store.model = true;
            }
            ScanStep::AddFull | ScanStep::AddRest => {
                assert!(store.model, "the model is loaded first");
                let batch = batches.remove(0);
                if let Some(w) = &written {
                    assert!(batch.iter().all(|r| w.contains(&r.id)), "referred to first");
                }
                assert_eq!(manifest, written.is_some(), "the manifest comes first");
                store.ids.extend(batch.iter().map(|r| r.id.clone()));
                run.note_added(batch.len());
            }
            ScanStep::Finish => {
                batches.extend(run.finish());
                stale = run.stale();
            }
            ScanStep::WriteManifest => written = Some(run.membership().to_vec()),
            ScanStep::Delete => {
                let batch = stale.remove(0);
                store.ids.retain(|id| !batch.contains(id));
                store.deleted.extend(batch.iter().cloned());
                run.note_deleted(batch.len());
            }
            ScanStep::Done => return (run.stats(), written),
            ScanStep::Fail => panic!("nothing failed"),
        }
        let progress = Progress {
            ok: true,
            files: files.peek().is_some(),
            batches: !batches.is_empty(),
            stale: !stale.is_empty(),
            model: store.model,
        };
        step = next_scan_step(step, manifest, progress);
    }
}

fn record(id: &str) -> Record {
    Record {
        id: id.to_string(),
        body: "x".to_string(),
        meta: Meta {
            path: "a".to_string(),
            line: 1,
            lang: "rs".to_string(),
            node_type: "window".to_string(),
            scope: String::new(),
        },
    }
}

#[test]
fn adds_new_keeps_unchanged_deletes_stale() {
    let content: &[u8] = b"def f():\n    return 1\n";
    let mut used = UsedGrammars::new();
    let (_, real_records, _, _, ok) =
        chunks_for_file("/repo/a.py", "/repo", Some(content.to_vec()), &mut used);
    assert!(ok, "fixture should parse cleanly");
    assert!(
        !real_records.is_empty(),
        "fixture should produce at least one chunk"
    );

    let unchanged_id = real_records[0].id.clone();
    let mut store = Ids::new(&[&unchanged_id, "STALE"]);
    let stats = scan(&mut store, &[("/repo/a.py", content)]);

    assert_eq!(stats.files, 1, "files");

    assert!(stats.unchanged >= 1, "unchanged >= 1");

    assert!(
        store.deleted.contains(&"STALE".to_string()),
        "STALE should be deleted; deleted={:?}",
        store.deleted
    );
    assert!(stats.deleted >= 1, "deleted >= 1");
}

#[test]
fn binary_file_skipped() {
    let mut store = Ids::new(&[]);
    let stats = scan(&mut store, &[("/repo/bin.py", b"\x00\x01\x02 binary content")]);
    assert_eq!(stats.skipped_bin, 1);
    assert_eq!(stats.files, 0);
}

#[test]
fn empty_dir_returns_zero_stats() {
    let stats = scan(&mut Ids::new(&[]), &[]);
    assert_eq!(stats.files, 0);
    assert_eq!(stats.added, 0);
    assert_eq!(stats.deleted, 0);
}

#[test]
fn existing_ids_error_treated_as_empty() {
    let mut store = Ids::new(&[]);
    store.fetch_fails = true;
    let stats = scan(&mut store, &[("/repo/a.rs", b"fn x() {}")]);
    assert!(
        stats.added >= 1,
        "should add chunks when existing treated as empty"
    );
}

#[test]
fn a_scan_without_fetched_ids_knows_of_none() {
    let mut run = OneShot::start(None);
    assert!(run.stale().is_empty());
    assert!(run.take_file(vec![record("a"), record("b")], 0, 2, true).is_empty());
    assert_eq!(run.finish()[0].len(), 2);
    assert_eq!(run.stats().unchanged, 0);

    let mut run = OneShot::start(Some(IdSet::of(&vec!["a".to_string()])));
    assert_eq!(run.stale(), vec![vec!["a".to_string()]]);
    run.take_file(vec![record("a"), record("b")], 0, 2, true);
    assert_eq!(run.finish()[0].len(), 1);
    assert_eq!(run.stats().unchanged, 1);
}

#[test]
fn a_scan_with_a_manifest_deletes_nothing() {
    let mut store = Ids::new(&["STALE"]);
    let (stats, written) = scan_with(&mut store, &[("/repo/a.rs", b"fn x() {}")], true);
    assert_eq!((stats.added, stats.deleted), (1, 0));
    assert_eq!(store.ids.len(), 2);
    assert_eq!(written, Some(vec![store.ids[1].clone()]));
}

#[test]
fn steps_of_a_scan() {
    let p = |files, batches, stale| Progress { ok: true, files, batches, stale, model: true };
    let cold = Progress { model: false, ..p(false, true, true) };
    let failed = Progress { ok: false, ..p(true, true, true) };
    let load = |finished| ScanStep::LoadModel { finished };
    let next = next_scan_step;
    assert_eq!(next(ScanStep::Begin, false, p(false, false, false)), ScanStep::Finish);
    assert_eq!(next(ScanStep::Begin, false, p(true, false, false)), ScanStep::TakeFile);
    assert_eq!(next(ScanStep::TakeFile, false, p(true, true, false)), ScanStep::AddFull);
    assert_eq!(next(ScanStep::TakeFile, true, p(true, true, false)), ScanStep::TakeFile);
    assert_eq!(next(ScanStep::AddFull, false, p(false, false, false)), ScanStep::Finish);
    assert_eq!(next(ScanStep::Finish, false, p(false, true, true)), ScanStep::AddRest);
    assert_eq!(next(ScanStep::Finish, true, p(false, true, true)), ScanStep::WriteManifest);
    assert_eq!(next(ScanStep::WriteManifest, true, p(false, true, true)), ScanStep::AddRest);
    assert_eq!(next(ScanStep::AddRest, true, p(false, false, true)), ScanStep::Done);
    assert_eq!(next(ScanStep::AddRest, false, p(false, false, true)), ScanStep::Delete);
    assert_eq!(next(ScanStep::Delete, false, p(false, false, false)), ScanStep::Done);
    assert_eq!(next(ScanStep::TakeFile, false, cold), load(false));
    assert_eq!(next(ScanStep::Finish, false, cold), load(true));
    assert_eq!(next(ScanStep::Finish, true, cold), ScanStep::WriteManifest);
    assert_eq!(next(ScanStep::WriteManifest, true, cold), load(true));
    assert_eq!(next(load(false), false, cold), ScanStep::AddFull);
    assert_eq!(next(load(true), true, cold), ScanStep::AddRest);
    assert_eq!(next(load(true), false, failed), ScanStep::Fail);
    for step in [ScanStep::AddFull, ScanStep::WriteManifest, ScanStep::AddRest, ScanStep::Delete] {
        assert_eq!(next(step, true, failed), ScanStep::Fail);
        assert_eq!(next(step, false, failed), ScanStep::Fail);
    }
    assert_eq!(next(ScanStep::Fail, false, p(true, true, true)), ScanStep::Fail);
}

#[test]
fn second_scan_changes_nothing() {
    let files: &[(&str, &[u8])] =
        &[("/repo/a.py", b"def f():\n    return 1\n"), ("/repo/n.txt", b"text")];
    let mut store = Ids::new(&["OLD"]);
    let first = scan(&mut store, files);
    assert_eq!((first.files, first.added, first.unchanged, first.deleted), (2, 2, 0, 1));
    assert_eq!((first.ts_chunks, first.win_chunks), (1, 1));
    let before = store.ids.clone();
    assert!(store.model);
    store.model = false;
    let second = scan(&mut store, files);
    assert!(!store.model, "nothing new needs no model");
    assert_eq!((second.added, second.unchanged, second.deleted), (0, 2, 0));
    assert_eq!(store.ids, before);
}

#[test]
fn full_batches_are_handed_out_at_once() {
    let mut run = OneShot::new(IdSet::new());
    let records: Vec<Record> = (0..4500).map(|i| record(&format!("id{i}"))).collect();
    let batches = run.take_file(records, 0, 4500, true);
    assert_eq!(batches.iter().map(|b| b.len()).collect::<Vec<_>>(), vec![2000, 2000]);
    assert_eq!(batches[1][0].id, "id2000");
    let rest = run.finish();
    assert_eq!(rest.iter().map(|b| b.len()).collect::<Vec<_>>(), vec![500]);
    assert!(run.finish().is_empty());
    assert_eq!(run.membership().len(), 4500);
}

#[test]
fn stale_ids_go_in_batches() {
    let ids: Vec<String> = (0..2001).map(|i| format!("id{i}")).collect();
    let mut run = OneShot::new(IdSet::of(&ids));
    run.take_file(vec![record("id5")], 0, 1, true);
    let stale = run.stale();
    assert_eq!(stale.iter().map(|b| b.len()).sum::<usize>(), 2000);
    assert!(stale.iter().all(|b| !b.is_empty() && b.len() <= 2000));
    assert!(stale.iter().flatten().all(|id| id != "id5"));
    assert_eq!(run.stats().unchanged, 1);
}
