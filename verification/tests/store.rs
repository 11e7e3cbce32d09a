use index_repo::store::{FieldValue, Meta, Stats};

fn text(s: &str) -> FieldValue {
    FieldValue::Text(s.to_string())
}

fn get<'a>(fields: &'a [(String, FieldValue)], key: &str) -> Option<&'a FieldValue> {
    fields.iter().find(|f| f.0 == key).map(|f| &f.1)
}

fn meta_with_scope() -> Meta {
    Meta {
        path: "src/foo.rs".to_string(),
        line: 42,
        lang: "rs".to_string(),
        node_type: "function_item".to_string(),
        scope: "MyStruct".to_string(),
    }
}

fn meta_no_scope() -> Meta {
    Meta {
        path: "src/bar.py".to_string(),
        line: 1,
        lang: "py".to_string(),
        node_type: "window".to_string(),
        scope: String::new(),
    }
}

#[test]
fn meta_scope_serializes() {
    let v = meta_with_scope().fields();
    assert_eq!(
        get(&v, "scope"),
        Some(&text("MyStruct")),
        "scope must be present when non-empty"
    );
    assert_eq!(
        get(&v, "type"),
        Some(&text("function_item")),
        "key must be 'type', not 'node_type'"
    );
    assert_eq!(get(&v, "lang"), Some(&text("rs")));
    assert_eq!(get(&v, "line"), Some(&FieldValue::Number(42)));
    assert_eq!(get(&v, "path"), Some(&text("src/foo.rs")));
}

#[test]
fn meta_no_scope_omits_key() {
    let v = meta_no_scope().fields();
    assert!(
        get(&v, "scope").is_none(),
        "scope must be omitted when empty, got: {v:?}"
    );
    assert_eq!(get(&v, "type"), Some(&text("window")));
}

#[test]
fn meta_roundtrip() {
    let m = meta_with_scope();
    let m2 = Meta::from_fields(&m.fields()).unwrap();
    assert_eq!(m, m2);
}

#[test]
fn meta_without_scope_reads_back() {
    let m = meta_no_scope();
    assert_eq!(Meta::from_fields(&m.fields()), Some(m));
}

#[test]
fn meta_with_a_field_missing_or_wrong_is_none() {
    for key in ["path", "line", "lang", "type"] {
        let mut fields = meta_with_scope().fields();
        fields.retain(|f| f.0 != key);
        assert_eq!(Meta::from_fields(&fields), None, "without {key}");
        fields.push((key.to_string(), FieldValue::Other));
        assert_eq!(Meta::from_fields(&fields), None, "with a wrong {key}");
    }
    let mut fields = meta_no_scope().fields();
    fields.push(("scope".to_string(), FieldValue::Other));
    assert_eq!(Meta::from_fields(&fields), None);
    let mut fields = meta_no_scope().fields();
    fields.push(("extra".to_string(), FieldValue::Other));
    assert_eq!(Meta::from_fields(&fields), Some(meta_no_scope()));
}

#[test]
fn stats_default() {
    let s = Stats::default();
    assert_eq!(s.files, 0);
    assert_eq!(s.added, 0);
}
