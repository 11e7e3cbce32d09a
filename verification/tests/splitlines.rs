use index_repo::splitlines::{is_py_blank, lines_of, py_splitlines, split_newlines};

#[test]
fn basic_lf() {
    assert_eq!(py_splitlines("a\nb\nc"), vec!["a", "b", "c"]);
}

#[test]
fn no_trailing_empty() {
    assert_eq!(py_splitlines("a\n"), vec!["a"]);
}

#[test]
fn crlf_and_cr() {
    assert_eq!(py_splitlines("a\r\nb\rc"), vec!["a", "b", "c"]);
}

#[test]
fn unicode_separators() {
    assert_eq!(
        py_splitlines("a\u{2028}b\u{0085}c\u{000b}d\u{000c}e"),
        vec!["a", "b", "c", "d", "e"]
    );
}

#[test]
fn empty() {
    assert!(py_splitlines("").is_empty());
}

#[test]
fn file_separator_group_separator_record_separator() {
    assert_eq!(py_splitlines("a\x1cb\x1dc\x1ed"), vec!["a", "b", "c", "d"]);
}

#[test]
fn paragraph_separator() {
    assert_eq!(py_splitlines("a\u{2029}b"), vec!["a", "b"]);
}

#[test]
fn no_trailing_empty_multiple() {
    assert_eq!(py_splitlines("a\n\n"), vec!["a", ""]);
}

#[test]
fn only_newline() {
    assert_eq!(py_splitlines("\n"), vec![""]);
}

#[test]
fn is_py_blank_matches_python_strip() {
    assert!(is_py_blank(""));
    assert!(is_py_blank("   \t"));
    assert!(is_py_blank("\u{1c}\u{1d}\u{1e}\u{1f}"));
    assert!(is_py_blank("\u{1f}\u{1f}"));
    assert!(is_py_blank("\u{85}\u{2028}\u{2029}"));
    assert!(!is_py_blank("\u{1f}x"));
    assert!(!is_py_blank("a"));
}

#[test]
fn lines_hold_no_break() {
    for line in py_splitlines("ä\u{85}\n\r\r\nb\u{1d}c") {
        assert!(!line.contains(['\n', '\r', '\u{85}', '\u{1d}']));
    }
    assert_eq!(py_splitlines("ä\u{85}\n\r\r\nb\u{1d}c"), vec!["ä", "", "", "", "b", "c"]);
}

#[test]
fn newline_pieces_join_to_the_text() {
    let s = "a\r\n\nb\n";
    let pieces = split_newlines(s);
    assert_eq!(pieces, vec!["a\r", "", "b", ""]);
    assert_eq!(pieces.join("\n"), s);
    assert_eq!(split_newlines(""), vec![""]);
}

#[test]
fn text_lines_drop_carriage_returns() {
    assert_eq!(lines_of("a\r\nb\rc\n\n"), vec!["a", "b\rc", ""]);
    assert!(lines_of("").is_empty());
}
