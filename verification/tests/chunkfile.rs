use index_repo::chunkfile::{build_meta, chunk_id, chunks_for_file, lang_field};
use index_repo::grammar::UsedGrammars;
use index_repo::store::{FieldValue, Record};

const SHA1_GOLDEN: &str = "4a679fdf6dfaf9eb3065579128135bd28632f800";

fn of(path: &str, content: Option<&[u8]>) -> (String, Vec<Record>, usize, usize, bool) {
    let mut used = UsedGrammars::new();
    chunks_for_file(path, "/repo", content.map(|c| c.to_vec()), &mut used)
}

#[test]
fn id_matches_python_sha1() {
    assert_eq!(chunk_id("a.py", 1, "x = 1"), SHA1_GOLDEN);
}

#[test]
fn meta_scope_present_when_non_empty() {
    let m = build_meta("src/foo.rs", 10, "rs", "function_item", "Greeter");
    assert_eq!(m.scope, "Greeter");
    let v = m.fields();
    assert!(v.contains(&("scope".to_string(), FieldValue::Text("Greeter".to_string()))));
    assert!(v.contains(&("type".to_string(), FieldValue::Text("function_item".to_string()))));
}

#[test]
fn meta_scope_absent_when_empty() {
    let m = build_meta("src/bar.py", 1, "py", "window", "");
    assert_eq!(m.scope, "");
    let v = m.fields();
    assert!(
        !v.iter().any(|f| f.0 == "scope"),
        "scope should be omitted, got: {v:?}"
    );
}

#[test]
fn lang_field_rules() {
    assert_eq!(lang_field("a.py"), "py");
    assert_eq!(lang_field("Makefile"), "Makefile");
    assert_eq!(lang_field(".envrc"), ".envrc");
    assert_eq!(lang_field("x.tar.gz"), "gz");
    assert_eq!(lang_field("script.TS"), "ts");
}

#[test]
fn lang_field_without_an_extension() {
    assert_eq!(lang_field("dir.d/name."), "name.");
    assert_eq!(lang_field(".."), "");
    assert_eq!(lang_field("x.ÄÖ"), "äö");
}

#[test]
fn chunks_for_file_binary_returns_not_ok() {
    let (_, recs, _, _, ok) = of("/repo/bin.py", Some(b"\xff\xfe not utf8"));
    assert!(!ok, "binary file should have ok=false");
    assert!(recs.is_empty());
}

#[test]
fn file_with_nul_is_binary() {
    let (rel, recs, ts, win, ok) = of("/repo/bin.py", Some(b"\x00\x01\x02 binary content"));
    assert_eq!(rel, "bin.py");
    assert!(!ok);
    assert!(recs.is_empty());
    assert_eq!((ts, win), (0, 0));
}

#[test]
fn chunks_for_file_missing_returns_ok_empty() {
    let (_, recs, _, _, ok) = of("/repo/ghost.py", None);
    assert!(ok, "missing file should have ok=true");
    assert!(recs.is_empty());
}

#[test]
fn chunks_for_file_window_fallback() {
    let (rel, recs, ts, win, ok) = of("/repo/notes.txt", Some(b"line one\nline two\n"));
    assert!(ok);
    assert_eq!(rel, "notes.txt");
    assert_eq!(ts, 0);
    assert_eq!(win, 1);
    assert_eq!(recs[0].meta.node_type, "window");
}

#[test]
fn chunks_for_file_python_semantic() {
    let (rel, recs, ts, win, ok) = of(
        "/repo/sample.py",
        Some(b"import os\n\nclass Greeter:\n    def hello(self, name):\n        return f\"hi {name}\"\n\ndef top_level():\n    return 1\n"),
    );
    assert!(ok);
    assert_eq!(rel, "sample.py");
    assert!(ts > 0, "should have ts chunks");
    let first = &recs[0];
    let expected_id = chunk_id(&rel, first.meta.line, &first.body);
    assert_eq!(first.id, expected_id);
    assert_eq!(ts + win, recs.len());
}

#[test]
fn file_outside_the_root_keeps_its_path() {
    let (rel, recs, _, _, ok) = of("/other/notes.txt", Some(b"x"));
    assert!(ok);
    assert_eq!(rel, "/other/notes.txt");
    assert_eq!(recs[0].meta.path, "/other/notes.txt");
}

#[test]
fn chunk_id_format() {
    // printf 'sub/dir/foo.rs:42:fn bar() {}' | sha1sum
    let id = chunk_id("sub/dir/foo.rs", 42, "fn bar() {}");
    let expected = {
        let digest = <sha1::Sha1 as sha1::Digest>::digest(b"sub/dir/foo.rs:42:fn bar() {}");
        digest.iter().map(|b| format!("{b:02x}")).collect::<String>()
    };
    assert_eq!(id, expected);
}
