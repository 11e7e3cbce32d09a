use index_repo::config::{
    collection_name, count_from, ext_to_lang, fallback_collection_name, finalize_collection,
    flag_enabled, gc_dry_run, git_output, git_slug, manifest_collection_name,
    max_file_bytes_from, named_collection, normalize_remote, pooling_from, sanitize_slug,
    scope_types, semantic_types, ttl_secs_from, PoolingKind, EXTRA_IGNORE, EXTS,
    MANIFEST_PART_SIZE, SPECIAL_NAMES,
};

#[test]
fn exts_and_special_names() {
    assert!(EXTS.contains(&".rs"));
    assert!(EXTS.contains(&".tsx"));
    assert!(!EXTS.contains(&".png"));
    assert!(SPECIAL_NAMES.contains(&"Makefile"));
    assert!(SPECIAL_NAMES.contains(&".envrc"));
}

#[test]
fn tables_are_complete() {
    assert_eq!(EXTS.len(), 41);
    assert_eq!(SPECIAL_NAMES, ["Makefile", "Dockerfile", "Justfile", ".envrc"]);
    assert_eq!(EXTRA_IGNORE.len(), 29);
    assert_eq!(EXTRA_IGNORE[0], ".git/");
    assert_eq!(EXTRA_IGNORE[28], "pnpm-lock.yaml");
}

#[test]
fn ext_to_lang_maps() {
    assert_eq!(ext_to_lang(".tsx"), Some("tsx"));
    assert_eq!(ext_to_lang(".ts"), Some("typescript"));
    assert_eq!(ext_to_lang(".mjs"), Some("javascript"));
    assert_eq!(ext_to_lang(".png"), None);
}

#[test]
fn semantic_and_scope_sets_present() {
    assert!(semantic_types("rust").contains(&"function_item"));
    assert!(scope_types("python").contains(&"class_definition"));
    assert!(scope_types("go").is_empty());
}

#[test]
fn unknown_language_has_no_kinds() {
    assert!(semantic_types("cobol").is_empty());
    assert!(scope_types("cobol").is_empty());
}

#[test]
fn ext_to_lang_new_languages() {
    assert_eq!(ext_to_lang(".java"), Some("java"));
    assert_eq!(ext_to_lang(".c"), Some("c"));
    assert_eq!(ext_to_lang(".hpp"), Some("cpp"));
    assert_eq!(ext_to_lang(".cs"), Some("csharp"));
    assert_eq!(ext_to_lang(".rb"), Some("ruby"));
}

#[test]
fn collection_name_disambiguates_by_path() {
    let a = collection_name("/work/alpha/frontend", None, None);
    let b = collection_name("/work/beta/frontend", None, None);
    assert!(a.starts_with("code-frontend-"), "got {a}");
    assert!(b.starts_with("code-frontend-"), "got {b}");
    assert_ne!(a, b, "same basename + different path must not collide");
    assert_eq!(a, collection_name("/work/alpha/frontend", None, None));
}

#[test]
fn fallback_name_is_exact() {
    // The digest of "/work/alpha/frontend" in front of the name's end.
    let name = fallback_collection_name("/work/alpha/frontend");
    assert_eq!(name.len(), "code-frontend-".len() + 8);
    assert!(name["code-frontend-".len()..].chars().all(|c| c.is_ascii_hexdigit()));
    assert!(fallback_collection_name("/").starts_with("code-unknown-"));
}

#[test]
fn normalize_remote_forms_collapse() {
    let want = Some("labi-le/index-repo".to_string());
    assert_eq!(
        normalize_remote("git@github.com:labi-le/index-repo.git"),
        want
    );
    assert_eq!(
        normalize_remote("https://github.com/labi-le/index-repo.git"),
        want
    );
    assert_eq!(
        normalize_remote("https://github.com/labi-le/index-repo"),
        want
    );
    assert_eq!(
        normalize_remote("ssh://git@github.com/labi-le/index-repo.git"),
        want
    );
    assert_eq!(
        normalize_remote("https://user@github.com/labi-le/index-repo/"),
        want
    );
    assert_eq!(
        normalize_remote("git+https://github.com/labi-le/index-repo.git"),
        want
    );
}

#[test]
fn normalize_remote_keeps_nested_group() {
    assert_eq!(
        normalize_remote("https://gitlab.com/group/sub/proj.git"),
        Some("group/sub/proj".to_string())
    );
}

#[test]
fn normalize_remote_without_a_path() {
    assert_eq!(normalize_remote(""), None);
    assert_eq!(normalize_remote("  / "), None);
    assert_eq!(normalize_remote("https://host/"), Some("host".to_string()));
}

#[test]
fn sanitize_slug_rules() {
    assert_eq!(sanitize_slug("labi-le/index-repo"), "labi-le-index-repo");
    assert_eq!(sanitize_slug("Foo/Bar Baz"), "foo-bar-baz");
    assert_eq!(sanitize_slug("--a//b--"), "a-b");
}

#[test]
fn slug_of_a_slug_is_itself() {
    let slug = sanitize_slug("Ünïcode__X..y//z");
    assert_eq!(sanitize_slug(&slug), slug);
    assert_eq!(slug, "n-code__x..y-z");
}

#[test]
fn finalize_collection_caps_at_63() {
    let name = finalize_collection(&"x".repeat(200));
    assert!(name.len() <= 63, "len {} > 63: {name}", name.len());
    assert!(name.starts_with("code-x"));
}

#[test]
fn finalize_collection_lengths() {
    let name = finalize_collection(&"x".repeat(58));
    assert_eq!(name, format!("code-{}", "x".repeat(58)));
    let name = finalize_collection(&"x".repeat(59));
    assert_eq!(name.len(), 63);
    assert!(name.starts_with(&format!("code-{}-", "x".repeat(49))));
}

#[test]
fn collection_name_uses_git_remote() {
    let toplevel = git_output(true, b"/r\n".to_vec());
    let remote = git_output(true, b"git@github.com:acme/Widgets.git\n".to_vec());
    assert_eq!(
        collection_name("/r", toplevel.as_deref(), remote.as_deref()),
        "code-acme-widgets"
    );
}

#[test]
fn collection_name_of_a_git_remote() {
    assert_eq!(
        collection_name("/r/sub/dir", Some("/r"), Some("https://github.com/acme/Widgets")),
        "code-acme-widgets-sub-dir"
    );
    let fallback = fallback_collection_name("/r");
    assert_eq!(collection_name("/r", None, Some("git@github.com:acme/Widgets.git")), fallback);
    assert_eq!(collection_name("/r", Some("/r"), None), fallback);
}

#[test]
fn git_slug_outside_the_work_tree() {
    assert_eq!(
        git_slug("/elsewhere", Some("/r"), Some("git@h:o/r")),
        Some("o/r".to_string())
    );
}

#[test]
fn git_output_rules() {
    assert_eq!(git_output(true, b"/r\n".to_vec()), Some("/r".to_string()));
    assert_eq!(git_output(false, b"/r\n".to_vec()), None);
    assert_eq!(git_output(true, b" \n".to_vec()), None);
    assert_eq!(git_output(true, vec![0xff]), None);
}

#[test]
fn ttl_secs_from_defaults_and_parses() {
    assert_eq!(ttl_secs_from(None), 30 * 86_400, "unset → 30 days");
    assert_eq!(
        ttl_secs_from(Some("garbage")),
        30 * 86_400,
        "invalid → default"
    );
    assert_eq!(ttl_secs_from(Some("7")), 7 * 86_400);
    assert_eq!(ttl_secs_from(Some("0")), 0, "0 → GC disabled");
}

#[test]
fn ttl_secs_saturate() {
    assert_eq!(ttl_secs_from(Some("18446744073709551615")), u64::MAX);
    assert_eq!(ttl_secs_from(Some("18446744073709551616")), 30 * 86_400);
    assert_eq!(ttl_secs_from(Some("+1")), 86_400);
}

#[test]
fn flag_enabled_recognizes_truthy() {
    assert!(flag_enabled(Some("1")));
    assert!(flag_enabled(Some("true")));
    assert!(flag_enabled(Some("TRUE")));
    assert!(!flag_enabled(Some("0")));
    assert!(!flag_enabled(Some("no")));
    assert!(!flag_enabled(None));
}

#[test]
fn settings_fall_back_to_defaults() {
    assert!(gc_dry_run(Some("True")));
    assert!(!gc_dry_run(None));
    assert_eq!(max_file_bytes_from(None), 524_288);
    assert_eq!(max_file_bytes_from(Some("0")), 524_288);
    assert_eq!(max_file_bytes_from(Some("10")), 10);
    assert_eq!(count_from(Some("x"), 4), 4);
    assert_eq!(count_from(Some("0"), 4), 4);
    assert_eq!(count_from(Some("9"), 4), 9);
}

#[test]
fn pooling_settings() {
    assert!(matches!(pooling_from(Some("cls")), PoolingKind::Cls));
    assert!(matches!(pooling_from(Some("CLS")), PoolingKind::Cls));
    assert!(matches!(pooling_from(Some("Cls")), PoolingKind::Mean));
    assert!(matches!(pooling_from(None), PoolingKind::Mean));
}

#[test]
fn clones_share_a_collection() {
    assert_eq!(
        collection_name("/home/a/x", Some("/home/a/x"), Some("git@h:o/r.git")),
        collection_name("/srv/y", Some("/srv/y/"), Some("https://h/o/r")),
    );
    assert_eq!(
        collection_name("/home/a/x/sub/dir", Some("/home/a/x"), Some("git@h:o/r.git")),
        collection_name("/srv/y/sub/dir", Some("/srv/y"), Some("https://h/o/r")),
    );
}

#[test]
fn named_collections() {
    assert_eq!(named_collection("a", "00"), "code-a");
    let long = "y".repeat(59);
    assert_eq!(named_collection(&long, "00"), format!("code-{}-00", &long[..49]));
}

#[test]
fn manifests_have_a_collection_of_their_own() {
    assert_eq!(manifest_collection_name("code-acme-widgets"), "code-code-acme-widgets-manifest");
    let long = manifest_collection_name(&"x".repeat(60));
    assert_eq!(long.len(), 63);
    assert!(long.starts_with(&format!("code-{}-", "x".repeat(49))));
    assert_eq!(MANIFEST_PART_SIZE, 1000);
}

#[test]
fn long_roots_are_told_apart() {
    let name = "n".repeat(80);
    let a = fallback_collection_name(&format!("/a/{name}"));
    let b = fallback_collection_name(&format!("/b/{name}"));
    assert_eq!((a.len(), b.len()), (63, 63));
    assert_eq!(a[..55], b[..55]);
    assert_ne!(a, b);
}

#[test]
fn slugs_tell_repositories_apart() {
    assert_ne!(finalize_collection("acme/widgets"), finalize_collection("acme/gadgets"));
    // Only the slug counts.
    assert_eq!(finalize_collection("acme/widgets"), finalize_collection("acme-widgets"));
}
