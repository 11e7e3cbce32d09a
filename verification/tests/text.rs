use index_repo::digest::{hex_encode, sha1_text};
use index_repo::ids::{IdSet, PathIds};
use index_repo::report::{
    done_line, mode_name, next_step, start_line, synced_line, update_line, Step,
};
use index_repo::store::Stats;
use index_repo::text::{ascii_lower_text, decimal_text, parse_number, trim};

#[test]
fn numbers_are_written_and_read() {
    for n in [0u64, 7, 10, 4242, u64::MAX] {
        assert_eq!(decimal_text(n), n.to_string());
        assert_eq!(parse_number(&decimal_text(n), u64::MAX), Some(n));
    }
    assert_eq!(parse_number("+007", 100), Some(7));
    assert_eq!(parse_number("101", 100), None);
    assert_eq!(parse_number("", 100), None);
    assert_eq!(parse_number("+", 100), None);
    assert_eq!(parse_number("-1", 100), None);
    assert_eq!(parse_number("1 ", 100), None);
}

#[test]
fn white_space_is_trimmed() {
    assert_eq!(trim("\u{a0}\u{3000} a b\t\r\n"), "a b");
    assert_eq!(trim(" \u{85} "), "");
    assert_eq!(trim("\u{1f}a"), "\u{1f}a");
}

#[test]
fn ascii_letters_in_lower_case() {
    assert_eq!(ascii_lower_text("AZaz09Ä"), "azaz09Ä");
}

#[test]
fn digests_in_hexadecimal() {
    assert_eq!(hex_encode(&[0, 15, 255]), "000fff");
    assert_eq!(sha1_text("abc"), "a9993e364706816aba3e25717850c26c9cd0d89d");
    assert_eq!(sha1_text(""), "da39a3ee5e6b4b0d3255bfef95601890afd80709");
}

#[test]
fn sets_of_ids() {
    let mut s = IdSet::new();
    assert!(s.is_empty());
    assert!(s.insert("a".to_string()));
    assert!(!s.insert("a".to_string()));
    assert!(s.insert("b".to_string()));
    assert!(s.remove("a"));
    assert!(!s.remove("a"));
    assert!(s.insert("a".to_string()));
    assert_eq!(s.len(), 2);
    let mut v = s.duplicate().to_vec();
    v.sort();
    assert_eq!(v, vec!["a".to_string(), "b".to_string()]);
}

#[test]
fn ids_by_file() {
    let mut m = PathIds::new();
    m.add_id("x".to_string(), "1".to_string());
    m.add_id("x".to_string(), "2".to_string());
    m.insert("y".to_string(), IdSet::new());
    assert_eq!(m.len(), 2);
    assert_eq!(m.get("x").map(|s| s.len()), Some(2));
    m.remove("x");
    assert!(!m.contains_key("x"));
    assert_eq!(m.keys(), vec!["y".to_string()]);
}

fn stats() -> Stats {
    Stats {
        files: 1,
        added: 2,
        unchanged: 3,
        deleted: 4,
        ts_chunks: 5,
        win_chunks: 6,
        skipped_bin: 7,
    }
}

#[test]
fn what_is_said_about_a_run() {
    assert_eq!(mode_name(true, true), "daemon");
    assert_eq!(mode_name(false, true), "full rebuild");
    assert_eq!(mode_name(false, false), "incremental");
    assert_eq!(
        start_line("/r", "h", 8000, "code-r", "incremental"),
        "indexing /r \u{2192} h:8000  collection=code-r mode=incremental"
    );
    assert_eq!(
        done_line(&stats(), "rust", "code-r", 9),
        "done. files=1 added=2 unchanged=3 deleted=4 (tree-sitter=5, window=6) skipped_binary=7 grammars=rust collection=code-r count=9"
    );
    assert_eq!(
        synced_line(&stats(), 8, "none"),
        "daemon: initial sync done \u{2014} files=1 added=2 unchanged=3 deleted=4 chunks=8 grammars=none"
    );
    assert_eq!(
        update_line(1, 0, 5),
        Some("daemon: live update \u{2014} added=1 deleted=0 chunks=5".to_string())
    );
    assert_eq!(update_line(0, 0, 5), None);
}

/// The steps of a run in which every step but the one given succeeds.
fn run(daemon: bool, full_rebuild: bool, failing: Option<Step>) -> Vec<Step> {
    let mut steps = vec![Step::CheckDirectory];
    loop {
        let step = *steps.last().unwrap();
        if matches!(step, Step::Exit(_)) {
            return steps;
        }
        steps.push(next_step(step, Some(step) != failing, 4, daemon, full_rebuild));
    }
}

#[test]
fn steps_of_a_run() {
    assert_eq!(
        run(false, true, Some(Step::DeleteCollection)),
        vec![
            Step::CheckDirectory,
            Step::Heartbeat,
            Step::DeleteCollection,
            Step::OpenCollection,
            Step::Scan,
            Step::Report,
            Step::Exit(0),
        ]
    );
    assert_eq!(run(true, false, None)[3..], [Step::RunDaemon, Step::Exit(4)]);
    assert!(!run(true, false, None).contains(&Step::DeleteCollection));
}

#[test]
fn exit_codes_of_a_run() {
    let code = |failing| *run(false, false, Some(failing)).last().unwrap();
    assert_eq!(code(Step::CheckDirectory), Step::Exit(2));
    assert_eq!(code(Step::Heartbeat), Step::Exit(3));
    assert_eq!(code(Step::OpenCollection), Step::Exit(1));
    assert_eq!(code(Step::Scan), Step::Exit(1));
    assert_eq!(code(Step::Report), Step::Exit(1));
    assert_eq!(next_step(Step::RunDaemon, false, 4, true, false), Step::Exit(1));
    assert_eq!(next_step(Step::RunDaemon, true, 4, true, false), Step::Exit(4));
    assert_eq!(next_step(Step::RunDaemon, true, 0, true, false), Step::Exit(0));
    assert_eq!(next_step(Step::Report, true, 4, false, false), Step::Exit(0));
}

#[test]
fn text_is_read_as_std_reads_it() {
    let alphabet = ['0', '7', '+', '-', ' ', '\u{85}', '\u{1f}', '\n', '\r', 'x'];
    for a in alphabet {
        for b in alphabet {
            for c in alphabet {
                for d in alphabet {
                    let s: String = [a, b, c, d].iter().collect();
                    assert_eq!(trim(&s), s.trim(), "{s:?}");
                    assert_eq!(parse_number(&s, u64::MAX), s.parse::<u64>().ok(), "{s:?}");
                    assert_eq!(parse_number(&s, 255), s.parse::<u8>().ok().map(u64::from), "{s:?}");
                    let lines: Vec<&str> = s.lines().collect();
                    assert_eq!(index_repo::splitlines::lines_of(&s), lines, "{s:?}");
                    let pieces: Vec<&str> = s.split('\n').collect();
                    assert_eq!(index_repo::splitlines::split_newlines(&s), pieces, "{s:?}");
                }
            }
        }
    }
    for n in 0..=0x2_ffff {
        if let Some(c) = char::from_u32(n) {
            let s = format!("{c}x");
            assert_eq!(trim(&s), s.trim(), "{n:x}");
        }
    }
}

#[test]
fn not_a_dir_returns_code_2() {
    assert_eq!(next_step(Step::CheckDirectory, false, 0, false, false), Step::Exit(2));
}
