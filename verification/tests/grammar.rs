use index_repo::grammar::{language_for, used_grammars_str, UsedGrammars};

#[test]
fn loads_all_langs() {
    let mut used = UsedGrammars::new();
    for k in [
        "php",
        "go",
        "javascript",
        "typescript",
        "tsx",
        "python",
        "rust",
        "bash",
        "java",
        "c",
        "cpp",
        "csharp",
        "ruby",
    ] {
        assert!(language_for(k, &mut used).is_some(), "missing grammar {k}");
    }
    assert!(language_for("nope", &mut used).is_none());
}

#[test]
fn each_lang_parses_trivial_snippet() {
    let snippets: &[(&str, &str)] = &[
        ("php", "<?php echo 1; ?>"),
        ("go", "package main\nfunc main() {}"),
        ("javascript", "function f() {}"),
        ("typescript", "function f(): void {}"),
        ("tsx", "const A = () => <div/>;"),
        ("python", "def f():\n    pass"),
        ("rust", "fn main() {}"),
        ("bash", "f() { echo hi; }"),
        ("java", "class A { void f() {} }"),
        ("c", "int f(void) { return 0; }"),
        ("cpp", "int f() { return 0; }"),
        ("csharp", "class A { void F() {} }"),
        ("ruby", "def f; 1; end"),
    ];
    let mut used = UsedGrammars::new();
    for (lang, snippet) in snippets {
        let language = language_for(lang, &mut used).expect(lang);
        let mut parser = tree_sitter::Parser::new();
        parser.set_language(&language).expect(lang);
        let tree = parser.parse(snippet.as_bytes(), None).expect(lang);
        assert!(
            !tree.root_node().is_error(),
            "parse error for {lang}: root is error node"
        );
    }
}

#[test]
fn unknown_key_returns_none() {
    let mut used = UsedGrammars::new();
    assert!(language_for("cobol", &mut used).is_none());
    assert!(language_for("", &mut used).is_none());
}

#[test]
fn used_grammars_tracking() {
    let mut used = UsedGrammars::new();
    language_for("rust", &mut used);
    language_for("python", &mut used);
    let s = used_grammars_str(&used);
    assert!(s.contains("python"), "got: {s}");
    assert!(s.contains("rust"), "got: {s}");
}

#[test]
fn used_grammars_are_sorted_and_named_once() {
    let mut used = UsedGrammars::new();
    assert_eq!(used_grammars_str(&used), "none");
    for k in ["tsx", "c", "tsx", "cobol", "cpp"] {
        language_for(k, &mut used);
    }
    assert_eq!(used_grammars_str(&used), "c, cpp, tsx");
}

#[test]
fn each_key_has_its_own_grammar() {
    let kinds = [
        ("php", "<?php function f() {}", "function_definition"),
        ("go", "package p\nfunc f() {}", "function_declaration"),
        ("javascript", "function f() {}", "function_declaration"),
        ("typescript", "interface I {}", "interface_declaration"),
        ("tsx", "const a = <b/>;", "jsx_self_closing_element"),
        ("python", "def f(): pass", "function_definition"),
        ("rust", "fn f() {}", "function_item"),
        ("bash", "f() { :; }", "function_definition"),
        ("java", "record R() {}", "record_declaration"),
        ("c", "int f(void) { return 0; }", "function_definition"),
        ("cpp", "namespace n {}", "namespace_definition"),
        ("csharp", "struct S {}", "struct_declaration"),
        ("ruby", "def f; end", "method"),
    ];
    let mut used = UsedGrammars::new();
    for (key, source, kind) in kinds {
        let language = language_for(key, &mut used).expect(key);
        let nodes = index_repo::syntax::parse_nodes(&language, source).expect(key);
        assert!(nodes.iter().any(|n| n.kind == kind), "{key}: no {kind}");
    }
}

/// The nodes below a node, parents first: kind, depth, bytes, rows and the kind of the
/// parent.
fn walk(
    node: tree_sitter::Node,
    depth: usize,
    out: &mut Vec<(String, usize, usize, usize, usize, usize, Option<String>)>,
) {
    out.push((
        node.kind().to_string(),
        depth,
        node.start_byte(),
        node.end_byte(),
        node.start_position().row,
        node.end_position().row,
        node.parent().map(|p| p.kind().to_string()),
    ));
    for i in 0..node.child_count() {
        walk(node.child(i).unwrap(), depth + 1, out);
    }
}

#[test]
fn nodes_are_those_of_the_tree() {
    let source = "mod m {\n    impl Foo {\n        fn bar(&self) -> i32 {\n            let s = \"ä\";\n            42 }\n    }\n}\nstruct X(;\n";
    let mut used = UsedGrammars::new();
    let language = language_for("rust", &mut used).unwrap();
    let mut parser = tree_sitter::Parser::new();
    parser.set_language(&language).unwrap();
    let tree = parser.parse(source, None).unwrap();
    let mut want = Vec::new();
    walk(tree.root_node(), 0, &mut want);

    let nodes = index_repo::syntax::parse_nodes(&language, source).unwrap();
    let parents = index_repo::syntax::parents(&nodes);
    let got: Vec<_> = nodes
        .iter()
        .enumerate()
        .map(|(i, n)| {
            (
                n.kind.clone(),
                n.depth,
                n.start_byte,
                n.end_byte,
                n.start_row,
                n.end_row,
                parents[i].map(|p| nodes[p].kind.clone()),
            )
        })
        .collect();
    assert!(got.len() > 20);
    assert_eq!(got, want);
}
