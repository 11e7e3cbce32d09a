use index_repo::ids::IdSet;
use index_repo::manifest::{
    all_ids, fields_of_part, manifest_parts, next_write_step, read, row_of, split_ids, stale_parts,
    ManifestRow, WriteStep,
};

fn texts(list: &[&str]) -> Vec<String> {
    list.iter().map(|s| s.to_string()).collect()
}

fn sorted(set: &IdSet) -> Vec<String> {
    let mut v = set.to_vec();
    v.sort();
    v
}

fn row(root: &str, gen: u64, doc: Option<&str>) -> ManifestRow {
    ManifestRow { roothash: root.to_string(), gen, doc: doc.map(|s| s.to_string()) }
}

#[test]
fn ids_stand_one_to_a_line() {
    assert_eq!(split_ids("a\n\nb\r\nc\n"), texts(&["a", "b", "c"]));
    assert!(split_ids("").is_empty());
}

#[test]
fn parts_are_cut_and_named() {
    let parts = manifest_parts("rh", 17, &texts(&["a", "b", "c"]), 2);
    assert_eq!(parts.len(), 2);
    assert_eq!(parts[0].id, "manifest-rh-17-0");
    assert_eq!(parts[0].body, "a\nb");
    assert_eq!(parts[1].id, "manifest-rh-17-1");
    assert_eq!(parts[1].body, "c");
    assert_eq!(parts[1].part, 1);
    assert!(manifest_parts("rh", 17, &vec![], 2).is_empty());
}

#[test]
fn read_gives_back_what_was_written() {
    let ids = texts(&["a", "b", "c"]);
    let mut rows = vec![row("rh", 3, Some("old\na"))];
    for p in manifest_parts("rh", 17, &ids, 2) {
        rows.push(row_of(&fields_of_part("rh", "/repo", 17, p.part), Some(p.body)));
    }
    assert_eq!(sorted(&read(&rows, "rh")), ids);
    rows.remove(0);
    assert_eq!(sorted(&read(&rows, "rh")), ids);
}

#[test]
fn only_the_latest_generation_counts() {
    let rows = vec![
        row("x", 2, Some("a\nb")),
        row("y", 9, Some("c")),
        row("x", 1, Some("z")),
        row("x", 2, Some("d")),
        row("y", 9, None),
        row("", 0, Some("e")),
    ];
    assert_eq!(sorted(&read(&rows, "x")), texts(&["a", "b", "d"]));
    assert_eq!(sorted(&read(&rows, "y")), texts(&["c"]));
    assert!(read(&rows, "none").is_empty());
    assert_eq!(sorted(&all_ids(&rows)), texts(&["a", "b", "c", "d", "e"]));
}

#[test]
fn row_without_a_document_still_dates_its_root() {
    let rows = vec![row("x", 2, Some("a")), row("x", 3, None)];
    assert!(read(&rows, "x").is_empty());
    assert!(all_ids(&rows).is_empty());
}

#[test]
fn older_parts_are_deleted_after_a_write() {
    let parts = manifest_parts("rh", 17, &texts(&["a"]), 5);
    let stored = texts(&["manifest-rh-3-0", "manifest-rh-17-0", "manifest-rh-3-1"]);
    assert_eq!(stale_parts(&stored, &parts), texts(&["manifest-rh-3-0", "manifest-rh-3-1"]));
    assert_eq!(stale_parts(&stored, &vec![]), stored);
}

#[test]
fn fields_default_where_missing() {
    let r = row_of(&vec![], Some("a".to_string()));
    assert_eq!(r.roothash, "");
    assert_eq!(r.gen, 0);
    assert_eq!(r.doc.as_deref(), Some("a"));
}

/// The steps of a write, given which of them succeed.
fn write_steps(outcomes: &[bool], parts: bool, stale: bool) -> Vec<WriteStep> {
    let mut all = vec![WriteStep::List];
    for ok in outcomes {
        all.push(next_write_step(all[all.len() - 1], *ok, parts, stale));
    }
    all
}

#[test]
fn steps_of_a_write() {
    assert_eq!(
        write_steps(&[true; 4], true, true),
        vec![WriteStep::List, WriteStep::Add, WriteStep::Delete, WriteStep::Done, WriteStep::Done]
    );
    assert_eq!(
        write_steps(&[true; 2], true, false),
        vec![WriteStep::List, WriteStep::Add, WriteStep::Done]
    );
    assert_eq!(
        write_steps(&[true; 2], false, true),
        vec![WriteStep::List, WriteStep::Delete, WriteStep::Done]
    );
    assert_eq!(write_steps(&[true], false, false), vec![WriteStep::List, WriteStep::Done]);
    assert_eq!(
        write_steps(&[false, true], true, true),
        vec![WriteStep::List, WriteStep::Fail, WriteStep::Fail]
    );
    assert_eq!(
        write_steps(&[true, false, true], true, true),
        vec![WriteStep::List, WriteStep::Add, WriteStep::Fail, WriteStep::Fail]
    );
    assert_eq!(
        write_steps(&[true, true, false], true, true),
        vec![WriteStep::List, WriteStep::Add, WriteStep::Delete, WriteStep::Fail]
    );
}

#[test]
fn reads_during_a_write_give_the_old_or_the_new() {
    let mut rows = vec![row("rh", 1, Some("old")), row("other", 9, Some("x"))];
    let parts = manifest_parts("rh", 2, &texts(&["a", "b"]), 1);
    let mut seen = vec![sorted(&read(&rows, "rh"))];
    let mut step = WriteStep::List;
    while step != WriteStep::Done {
        match step {
            WriteStep::Add => {
                rows.extend(parts.iter().map(|p| row("rh", 2, Some(&p.body))));
            }
            WriteStep::Delete => rows.retain(|r| r.roothash != "rh" || r.gen == 2),
            _ => {}
        }
        seen.push(sorted(&read(&rows, "rh")));
        step = next_write_step(step, true, true, true);
    }
    let old = texts(&["old"]);
    let new = texts(&["a", "b"]);
    assert_eq!(seen, vec![old.clone(), old, new.clone(), new]);
    assert_eq!(sorted(&read(&rows, "other")), texts(&["x"]));
}
