use index_repo::chroma::{
    auth_header_value, base_url, collections_path, paired, parse_count, Cursor, HttpStore,
    StoreError, PAGE,
};
use index_repo::store::Meta;

#[test]
fn base_url_and_paths() {
    let b = base_url("192.168.1.2", 8000, false);
    assert_eq!(b, "http://192.168.1.2:8000/api/v2");
    assert_eq!(base_url("h", 8000, true), "https://h:8000/api/v2");
}

#[test]
fn collections_path_uses_default_tenant_db() {
    assert_eq!(
        collections_path(&base_url("h", 8000, false)),
        "http://h:8000/api/v2/tenants/default_tenant/databases/default_database/collections"
    );
}

#[test]
fn col_id_errors_without_collection() {
    let store = HttpStore::new("127.0.0.1", 9999, false);
    assert!(
        store.col_id().is_err(),
        "col_id should error before get_or_create"
    );
}

#[test]
fn store_addresses() {
    let mut store = HttpStore::new("h", 1, false);
    assert_eq!(store.col_url(), Err(StoreError::NoCollection));
    assert_eq!(store.operation_url("get"), Err(StoreError::NoCollection));
    assert_eq!(store.heartbeat_url(), "http://h:1/api/v2/heartbeat");
    let collections = collections_path("http://h:1/api/v2");
    assert_eq!(store.collections_url(), collections);
    assert_eq!(store.collection_url("code-x"), format!("{collections}/code-x"));
    store.select("u-u-i-d".to_string());
    assert_eq!(store.col_id(), Ok("u-u-i-d"));
    assert_eq!(store.col_url(), Ok(format!("{collections}/u-u-i-d")));
    assert_eq!(store.operation_url("get"), Ok(format!("{collections}/u-u-i-d/get")));
    store.clear();
    assert_eq!(store.col_id(), Err(StoreError::NoCollection));
    assert_eq!(
        StoreError::NoCollection.message(),
        "no collection selected — call get_or_create first"
    );
}

#[test]
fn count_parses_bare_integer() {
    assert_eq!(parse_count("42\n"), Some(42));
    assert_eq!(parse_count("0"), Some(0));
}

#[test]
fn count_rejects_what_is_no_number() {
    assert_eq!(parse_count(""), None);
    assert_eq!(parse_count("{\"count\": 1}"), None);
    assert_eq!(parse_count("-1"), None);
    assert_eq!(parse_count("99999999999999999999999"), None);
}

#[test]
fn auth_header_value_formats_bearer() {
    let v = auth_header_value("secret-token").expect("valid token");
    assert_eq!(String::from_utf8(v).unwrap(), "Bearer secret-token");
}

#[test]
fn auth_header_value_rejects_empty_and_invalid() {
    assert!(auth_header_value("").is_none());
    assert!(auth_header_value("   ").is_none());
    assert!(auth_header_value("bad\ntoken").is_none());
}

#[test]
fn auth_header_value_trims_and_keeps_bytes() {
    assert_eq!(auth_header_value("  t\tk \n"), Some(b"Bearer t\tk".to_vec()));
    assert_eq!(auth_header_value("ä"), Some("Bearer ä".as_bytes().to_vec()));
    assert!(auth_header_value("a\u{7f}b").is_none());
}

#[test]
fn pages_are_fetched_until_one_is_short() {
    let mut c = Cursor::new();
    assert_eq!(c.offset(), 0);
    c.advance(PAGE);
    assert!(!c.is_done());
    assert_eq!(c.offset(), 10_000);
    c.advance(PAGE);
    assert_eq!(c.offset(), 20_000);
    c.advance(PAGE - 1);
    assert!(c.is_done());
    assert_eq!(c.offset(), 20_000);
}

#[test]
fn ids_without_metadata_are_left_out() {
    let meta = |p: &str| Meta {
        path: p.to_string(),
        line: 1,
        lang: "rs".to_string(),
        node_type: "window".to_string(),
        scope: String::new(),
    };
    let ids = vec!["a".to_string(), "b".to_string(), "c".to_string(), "d".to_string()];
    let metas = vec![Some(meta("x")), None, Some(meta("y"))];
    assert_eq!(
        paired(&ids, &metas),
        vec![("a".to_string(), meta("x")), ("c".to_string(), meta("y"))]
    );
}

#[test]
fn manifests_that_are_not_opened() {
    assert_eq!(StoreError::NoManifests.message(), "manifest collection not opened");
}
