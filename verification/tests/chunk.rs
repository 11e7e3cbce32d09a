use index_repo::chunk::{
    check_fit, chunk_file, chunk_nodes, collect_semantic, detect_lang, get_scope, line_window,
    sort_nodes, ts_chunk, Chunk,
};
use index_repo::grammar::{language_for, UsedGrammars};
use index_repo::syntax::{parents, parse_nodes, SyntaxNode};

const SAMPLE_PY: &str = "import os\n\nclass Greeter:\n    def hello(self, name):\n        return f\"hi {name}\"\n\ndef top_level():\n    return 1\n";

fn chunks(source: &str, path: &str) -> Vec<Chunk> {
    let mut used = UsedGrammars::new();
    chunk_file(source, path, &mut used)
}

fn node(kind: &str, depth: usize, bytes: (usize, usize), rows: (usize, usize), col: usize) -> SyntaxNode {
    SyntaxNode {
        kind: kind.to_string(),
        depth,
        start_byte: bytes.0,
        end_byte: bytes.1,
        start_row: rows.0,
        end_row: rows.1,
        end_column: col,
        name_field: None,
        type_field: None,
    }
}

#[test]
fn windows_with_overlap() {
    let text = (1..=250)
        .map(|n| n.to_string())
        .collect::<Vec<_>>()
        .join("\n");
    let w = line_window(&text);
    assert_eq!(w[0].0, 1);
    assert_eq!(w[1].0, 101);
    assert_eq!(w[2].0, 201);
    assert_eq!(w.len(), 3);
    assert!(w[0].1.starts_with("1\n2\n"));
}

#[test]
fn skips_blank_only_window() {
    assert!(line_window("   \n  \n").is_empty());
}

#[test]
fn single_short() {
    let w = line_window("a\nb");
    assert_eq!(w, vec![(1, "a\nb".to_string())]);
}

#[test]
fn us_separator_only_window_is_suppressed() {
    assert!(line_window("\u{1f}\u{1f}\u{1f}").is_empty());
}

#[test]
fn window_ends_where_the_text_does() {
    let text = (1..=120).map(|n| n.to_string()).collect::<Vec<_>>().join("\n");
    assert_eq!(line_window(&text).len(), 1);
    let text = (1..=121).map(|n| n.to_string()).collect::<Vec<_>>().join("\n");
    let w = line_window(&text);
    assert_eq!(w.len(), 2);
    assert_eq!(w[0].1.lines().count(), 120);
    assert_eq!(w[1].0, 101);
    assert_eq!(w[1].1.lines().count(), 21);
}

#[test]
fn blank_window_in_the_middle_is_left_out() {
    let mut lines: Vec<String> = vec![String::new(); 330];
    lines[0] = "first".to_string();
    lines[329] = "last".to_string();
    let w = line_window(&lines.join("\n"));
    assert_eq!(w.iter().map(|x| x.0).collect::<Vec<_>>(), vec![1, 301]);
}

#[test]
fn python_semantic_scope_and_preamble() {
    let chunks = chunks(SAMPLE_PY, "sample.py");
    let types: Vec<&str> = chunks.iter().map(|c| c.2.as_str()).collect();
    assert!(types.contains(&"preamble"), "expected preamble, got: {:?}", types);
    assert!(
        types.contains(&"function_definition"),
        "expected function_definition, got: {:?}",
        types
    );
    let hello = chunks
        .iter()
        .find(|c| c.1.contains("hi {name}"))
        .expect("hello chunk not found");
    assert_eq!(hello.3, "Greeter", "hello scope should be Greeter");
    let top = chunks
        .iter()
        .find(|c| c.1.contains("return 1"))
        .expect("top_level chunk not found");
    assert_eq!(top.3, "", "top_level scope should be empty");
}

#[test]
fn python_chunks_are_exact() {
    let want: Vec<Chunk> = vec![
        (1, "import os\n\nclass Greeter:".to_string(), "preamble".to_string(), String::new()),
        (
            4,
            "def hello(self, name):\n        return f\"hi {name}\"".to_string(),
            "function_definition".to_string(),
            "Greeter".to_string(),
        ),
        (
            7,
            "def top_level():\n    return 1".to_string(),
            "function_definition".to_string(),
            String::new(),
        ),
    ];
    assert_eq!(chunks(SAMPLE_PY, "sample.py"), want);
}

#[test]
fn blade_php_is_not_semantic() {
    assert_eq!(detect_lang("x.blade.php"), None);
}

#[test]
fn unknown_ext_falls_back_to_window() {
    let chunks = chunks("line one\nline two", "notes.txt");
    assert!(chunks.iter().all(|c| c.2 == "window"), "{:?}", chunks);
}

#[test]
fn rust_impl_item_scope() {
    let src = "struct Foo;\n\nimpl Foo {\n    fn bar(&self) -> i32 {\n        42\n    }\n}\n";
    let chunks = chunks(src, "sample.rs");
    let bar = chunks
        .iter()
        .find(|c| c.1.contains("42"))
        .expect("bar chunk not found");
    assert_eq!(bar.3, "Foo", "bar scope should be Foo, got: {:?}", bar);
}

#[test]
fn detect_lang_known_exts() {
    assert_eq!(detect_lang("foo.py"), Some("python"));
    assert_eq!(detect_lang("foo.rs"), Some("rust"));
    assert_eq!(detect_lang("foo.tsx"), Some("tsx"));
    assert_eq!(detect_lang("foo.ts"), Some("typescript"));
    assert_eq!(detect_lang("foo.mjs"), Some("javascript"));
    assert_eq!(detect_lang("README.md"), None);
    assert_eq!(detect_lang("x.blade.php"), None);
}

#[test]
fn detect_lang_ignores_case() {
    assert_eq!(detect_lang("dir.d/FOO.PY"), Some("python"));
    assert_eq!(detect_lang("Makefile"), None);
    assert_eq!(detect_lang(".py"), None);
}

#[test]
fn new_language_grammars_chunk_semantically() {
    let cases: &[(&str, &str, &str)] = &[
        (
            "A.java",
            "class A {\n  void greet() {\n    return;\n  }\n}\n",
            "method_declaration",
        ),
        (
            "m.c",
            "int add(int a, int b) {\n    return a + b;\n}\n",
            "function_definition",
        ),
        (
            "m.cpp",
            "int add(int a) {\n    return a;\n}\n",
            "function_definition",
        ),
        (
            "P.cs",
            "class P {\n    void Run() {\n        return;\n    }\n}\n",
            "method_declaration",
        ),
        ("m.rb", "def add(a, b)\n  a + b\nend\n", "method"),
    ];
    for (name, src, want) in cases {
        let types: Vec<String> = chunks(src, name).into_iter().map(|c| c.2).collect();
        assert!(
            types.iter().any(|t| t == want),
            "{name}: expected node type {want}, got {types:?}"
        );
    }
}

#[test]
fn java_method_scope_is_class() {
    let src = "class Foo {\n  int bar() {\n    return 42;\n  }\n}\n";
    let chunks = chunks(src, "Foo.java");
    let bar = chunks.iter().find(|c| c.1.contains("42")).expect("bar chunk");
    assert_eq!(bar.3, "Foo", "java method scope should be Foo, got: {bar:?}");
}

#[test]
fn ruby_method_scope_is_class() {
    let src = "class Foo\n  def bar\n    42\n  end\nend\n";
    let chunks = chunks(src, "foo.rb");
    let bar = chunks.iter().find(|c| c.1.contains("42")).expect("bar chunk");
    assert_eq!(bar.3, "Foo", "ruby method scope should be Foo, got: {bar:?}");
}

#[test]
fn long_function_is_cut_into_windows() {
    let mut src = "fn long() {\n".to_string();
    for i in 0..250 {
        src.push_str(&format!("    let x{i} = {i};\n"));
    }
    src.push_str("}\n");
    let got = chunks(&src, "long.rs");
    assert!(got.iter().all(|c| c.2 == "function_item"), "{got:?}");
    assert_eq!(got.iter().map(|c| c.0).collect::<Vec<_>>(), vec![1, 101, 201]);
}

#[test]
fn file_without_semantic_nodes_falls_back_to_windows() {
    let mut used = UsedGrammars::new();
    assert!(ts_chunk("x = 1\n", "python", &mut used).is_empty());
    let got = chunk_file("x = 1\n", "a.py", &mut used);
    assert_eq!(got, vec![(1, "x = 1".to_string(), "window".to_string(), String::new())]);
}

#[test]
fn unknown_language_has_no_semantic_chunks() {
    let mut used = UsedGrammars::new();
    assert!(ts_chunk("x", "cobol", &mut used).is_empty());
}

#[test]
fn nested_functions_stay_in_the_outer_one() {
    let src = "def outer():\n    def inner():\n        return 1\n    return inner\n";
    let got = chunks(src, "n.py");
    assert_eq!(got.len(), 1);
    assert_eq!(got[0].0, 1);
    assert!(got[0].1.contains("def inner"));
}

#[test]
fn nested_scopes_read_from_the_outside_in() {
    let src = "class A:\n    class B:\n        def f(self):\n            return 1\n";
    let got = chunks(src, "n.py");
    let f = got.iter().find(|c| c.2 == "function_definition").expect("f");
    assert_eq!(f.3, "A.B");
}

#[test]
fn parsed_nodes_come_parents_first() {
    let mut used = UsedGrammars::new();
    let language = language_for("python", &mut used).expect("python");
    let nodes = parse_nodes(&language, "def f():\n    pass\n").expect("parsed");
    assert_eq!(nodes[0].kind, "module");
    assert_eq!(nodes[0].depth, 0);
    let f = nodes.iter().position(|n| n.kind == "function_definition").expect("f");
    assert_eq!((nodes[f].start_row, nodes[f].end_row), (0, 1));
    assert_eq!((nodes[f].start_byte, nodes[f].end_byte), (0, 17));
    assert_eq!(nodes[f].name_field, Some((4, 5)));
    assert_eq!(parents(&nodes)[f], Some(0));
    assert_eq!(parents(&nodes)[0], None);
}

#[test]
fn nodes_are_taken_in_order_of_their_bytes() {
    let nodes = vec![
        node("root", 0, (0, 9), (0, 2), 0),
        node("b", 1, (4, 5), (1, 1), 1),
        node("a", 1, (0, 1), (0, 0), 1),
        node("c", 1, (4, 6), (1, 1), 2),
    ];
    assert_eq!(collect_semantic(&nodes, &["a", "b", "c"]), vec![1, 2, 3]);
    assert_eq!(sort_nodes(&nodes, &vec![1, 2, 3]), vec![2, 1, 3]);
    assert!(collect_semantic(&nodes, &["d"]).is_empty());
}

#[test]
fn chunks_of_given_nodes() {
    let source = "use x;\nfn a() {}\n\nfn b() {}\n";
    let nodes = vec![
        node("source_file", 0, (0, 28), (0, 4), 0),
        node("function_item", 1, (7, 16), (1, 1), 9),
        node("function_item", 1, (18, 27), (3, 3), 9),
    ];
    assert!(check_fit(source, "rust", &nodes));
    let got = chunk_nodes(source, "rust", &nodes);
    let want: Vec<Chunk> = vec![
        (1, "use x;".to_string(), "preamble".to_string(), String::new()),
        (2, "fn a() {}".to_string(), "function_item".to_string(), String::new()),
        (4, "fn b() {}".to_string(), "function_item".to_string(), String::new()),
    ];
    assert_eq!(got, want);
    assert_eq!(get_scope(source, &["impl_item"], &nodes, &parents(&nodes), 1), "");
}

#[test]
fn node_that_ends_at_a_line_start_does_not_cover_that_line() {
    let source = "fn a() {}\nlet x;\n";
    let nodes = vec![
        node("source_file", 0, (0, 17), (0, 2), 0),
        node("function_item", 1, (0, 10), (0, 1), 0),
    ];
    assert!(check_fit(source, "rust", &nodes));
    let got = chunk_nodes(source, "rust", &nodes);
    assert_eq!(got[1], (2, "let x;".to_string(), "preamble".to_string(), String::new()));
}

#[test]
fn nodes_outside_the_source_do_not_fit() {
    let nodes = vec![node("function_item", 0, (0, 10), (0, 0), 10)];
    assert!(!check_fit("fn a()", "rust", &nodes));
}
