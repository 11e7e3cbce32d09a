//! Settings, tables and the names of collections.
use vstd::prelude::*;
use vstd::utf8::*;

use crate::{digest, paths, text};

verus! {

/// Lines in a window.
pub const CHUNK_LINES: usize = 120;

/// Lines that a window shares with the one before it.
pub const OVERLAP: usize = 20;

/// A semantic chunk with more lines than this is cut into windows.
pub const MAX_SEMANTIC_LINES: usize = 200;

/// Records in one request to the store.
pub const BATCH: usize = 2000;

/// Ids in one part of a manifest.
pub const MANIFEST_PART_SIZE: usize = 1000;

/// Views of an optional string slice.
pub open spec fn opt_slice(s: Option<&str>) -> Option<Seq<char>> {
    match s {
        Some(t) => Some(t@),
        None => None,
    }
}

// ---------------------------------------------------------------------------
// Tables
// ---------------------------------------------------------------------------

/// Extensions of the files that are indexed, in lower case and with their dot.
pub const EXTS: [&'static str; 41] = [
    ".py", ".pyi", ".ts", ".tsx", ".js", ".jsx", ".mjs", ".cjs", ".php", ".go", ".rs", ".java",
    ".kt", ".swift", ".c", ".h", ".cc", ".cpp", ".hpp", ".rb", ".ex", ".exs", ".cs", ".nix",
    ".sql", ".sh", ".bash", ".zsh", ".md", ".mdx", ".rst", ".toml", ".yaml", ".yml", ".json",
    ".jsonc", ".vue", ".svelte", ".html", ".css", ".scss",
];

/// File names that are indexed whatever their extension.
pub const SPECIAL_NAMES: [&'static str; 4] = [
    "Makefile", "Dockerfile", "Justfile", ".envrc",
];

/// Patterns that are ignored in every repository, in `.gitignore` syntax.
pub const EXTRA_IGNORE: [&'static str; 29] = [
    ".git/", ".chroma/", ".direnv/", ".venv/", "venv/", "node_modules/", "vendor/", "dist/",
    "build/", "out/", "target/", "result", ".next/", ".nuxt/", ".cache/", ".parcel-cache/",
    "__pycache__/", "*.pyc", "*.min.js", "*.min.css", "*.map", "storage/", "bootstrap/cache/",
    "*.lock", "package-lock.json", "composer.lock", "uv.lock", "yarn.lock", "pnpm-lock.yaml",
];

/// The language key of an extension, which comes in lower case and with its dot.
pub open spec fn lang_of_ext(ext: Seq<char>) -> Option<Seq<char>> {
    if ext == ".php"@ {
        Some("php"@)
    } else if ext == ".go"@ {
        Some("go"@)
    } else if ext == ".js"@ || ext == ".jsx"@ || ext == ".mjs"@ || ext == ".cjs"@ {
        Some("javascript"@)
    } else if ext == ".ts"@ {
        Some("typescript"@)
    } else if ext == ".tsx"@ {
        Some("tsx"@)
    } else if ext == ".py"@ || ext == ".pyi"@ {
        Some("python"@)
    } else if ext == ".rs"@ {
        Some("rust"@)
    } else if ext == ".sh"@ || ext == ".bash"@ || ext == ".zsh"@ {
        Some("bash"@)
    } else if ext == ".java"@ {
        Some("java"@)
    } else if ext == ".c"@ || ext == ".h"@ {
        Some("c"@)
    } else if ext == ".cc"@ || ext == ".cpp"@ || ext == ".hpp"@ {
        Some("cpp"@)
    } else if ext == ".cs"@ {
        Some("csharp"@)
    } else if ext == ".rb"@ {
        Some("ruby"@)
    } else {
        None
    }
}

/// The language key of an extension, which comes in lower case and with its dot.
pub fn ext_to_lang(ext: &str) -> (r: Option<&'static str>)
    ensures
        opt_slice(r) == lang_of_ext(ext@),
{
    if text::str_eq(ext, ".php") {
        Some("php")
    } else if text::str_eq(ext, ".go") {
        Some("go")
    } else if text::str_eq(ext, ".js") || text::str_eq(ext, ".jsx") || text::str_eq(ext, ".mjs") || text::str_eq(ext, ".cjs") {
        Some("javascript")
    } else if text::str_eq(ext, ".ts") {
        Some("typescript")
    } else if text::str_eq(ext, ".tsx") {
        Some("tsx")
    } else if text::str_eq(ext, ".py") || text::str_eq(ext, ".pyi") {
        Some("python")
    } else if text::str_eq(ext, ".rs") {
        Some("rust")
    } else if text::str_eq(ext, ".sh") || text::str_eq(ext, ".bash") || text::str_eq(ext, ".zsh") {
        Some("bash")
    } else if text::str_eq(ext, ".java") {
        Some("java")
    } else if text::str_eq(ext, ".c") || text::str_eq(ext, ".h") {
        Some("c")
    } else if text::str_eq(ext, ".cc") || text::str_eq(ext, ".cpp") || text::str_eq(ext, ".hpp") {
        Some("cpp")
    } else if text::str_eq(ext, ".cs") {
        Some("csharp")
    } else if text::str_eq(ext, ".rb") {
        Some("ruby")
    } else {
        None
    }
}

/// The syntax node kinds that become chunks of their own, for a language key.
pub open spec fn semantic_kinds(lang: Seq<char>) -> Seq<Seq<char>> {
    if lang == "php"@ {
        seq!["function_definition"@, "method_declaration"@]
    } else if lang == "go"@ {
        seq!["function_declaration"@, "method_declaration"@, "type_declaration"@]
    } else if lang == "javascript"@ {
        seq!["function_declaration"@, "method_definition"@]
    } else if lang == "typescript"@ {
        seq!["function_declaration"@, "method_definition"@, "type_alias_declaration"@, "interface_declaration"@]
    } else if lang == "tsx"@ {
        seq!["function_declaration"@, "method_definition"@, "type_alias_declaration"@, "interface_declaration"@]
    } else if lang == "python"@ {
        seq!["function_definition"@]
    } else if lang == "rust"@ {
        seq!["function_item"@, "struct_item"@, "enum_item"@, "trait_item"@, "macro_definition"@]
    } else if lang == "bash"@ {
        seq!["function_definition"@]
    } else if lang == "java"@ {
        seq!["method_declaration"@, "constructor_declaration"@, "interface_declaration"@, "enum_declaration"@, "record_declaration"@]
    } else if lang == "c"@ {
        seq!["function_definition"@]
    } else if lang == "cpp"@ {
        seq!["function_definition"@]
    } else if lang == "csharp"@ {
        seq!["method_declaration"@, "constructor_declaration"@, "interface_declaration"@, "enum_declaration"@, "struct_declaration"@]
    } else if lang == "ruby"@ {
        seq!["method"@, "singleton_method"@]
    } else {
        Seq::empty()
    }
}

/// The syntax node kinds that become chunks of their own, for a language key.
pub fn semantic_types(lang: &str) -> (r: &'static [&'static str])
    ensures
        text::slices(r@) == semantic_kinds(lang@),
{
    let r: &'static [&'static str] = if text::str_eq(lang, "php") {
        &["function_definition", "method_declaration"]
    } else if text::str_eq(lang, "go") {
        &["function_declaration", "method_declaration", "type_declaration"]
    } else if text::str_eq(lang, "javascript") {
        &["function_declaration", "method_definition"]
    } else if text::str_eq(lang, "typescript") {
        &["function_declaration", "method_definition", "type_alias_declaration", "interface_declaration"]
    } else if text::str_eq(lang, "tsx") {
        &["function_declaration", "method_definition", "type_alias_declaration", "interface_declaration"]
    } else if text::str_eq(lang, "python") {
        &["function_definition"]
    } else if text::str_eq(lang, "rust") {
        &["function_item", "struct_item", "enum_item", "trait_item", "macro_definition"]
    } else if text::str_eq(lang, "bash") {
        &["function_definition"]
    } else if text::str_eq(lang, "java") {
        &["method_declaration", "constructor_declaration", "interface_declaration", "enum_declaration", "record_declaration"]
    } else if text::str_eq(lang, "c") {
        &["function_definition"]
    } else if text::str_eq(lang, "cpp") {
        &["function_definition"]
    } else if text::str_eq(lang, "csharp") {
        &["method_declaration", "constructor_declaration", "interface_declaration", "enum_declaration", "struct_declaration"]
    } else if text::str_eq(lang, "ruby") {
        &["method", "singleton_method"]
    } else {
        &[]
    };
    proof {
        assert(text::slices(r@) =~= semantic_kinds(lang@));
    }
    r
}

/// The syntax node kinds whose names make up the scope of a chunk, for a language key.
pub open spec fn scope_kinds(lang: Seq<char>) -> Seq<Seq<char>> {
    if lang == "php"@ {
        seq!["class_declaration"@, "interface_declaration"@, "trait_declaration"@, "enum_declaration"@]
    } else if lang == "javascript"@ {
        seq!["class_declaration"@]
    } else if lang == "typescript"@ {
        seq!["class_declaration"@]
    } else if lang == "tsx"@ {
        seq!["class_declaration"@]
    } else if lang == "python"@ {
        seq!["class_definition"@]
    } else if lang == "rust"@ {
        seq!["impl_item"@, "trait_item"@]
    } else if lang == "java"@ {
        seq!["class_declaration"@, "interface_declaration"@, "enum_declaration"@, "record_declaration"@]
    } else if lang == "cpp"@ {
        seq!["class_specifier"@, "struct_specifier"@, "namespace_definition"@]
    } else if lang == "csharp"@ {
        seq!["class_declaration"@, "struct_declaration"@, "interface_declaration"@, "namespace_declaration"@]
    } else if lang == "ruby"@ {
        seq!["class"@, "module"@]
    } else {
        Seq::empty()
    }
}

/// The syntax node kinds whose names make up the scope of a chunk, for a language key.
pub fn scope_types(lang: &str) -> (r: &'static [&'static str])
    ensures
        text::slices(r@) == scope_kinds(lang@),
{
    let r: &'static [&'static str] = if text::str_eq(lang, "php") {
        &["class_declaration", "interface_declaration", "trait_declaration", "enum_declaration"]
    } else if text::str_eq(lang, "javascript") {
        &["class_declaration"]
    } else if text::str_eq(lang, "typescript") {
        &["class_declaration"]
    } else if text::str_eq(lang, "tsx") {
        &["class_declaration"]
    } else if text::str_eq(lang, "python") {
        &["class_definition"]
    } else if text::str_eq(lang, "rust") {
        &["impl_item", "trait_item"]
    } else if text::str_eq(lang, "java") {
        &["class_declaration", "interface_declaration", "enum_declaration", "record_declaration"]
    } else if text::str_eq(lang, "cpp") {
        &["class_specifier", "struct_specifier", "namespace_definition"]
    } else if text::str_eq(lang, "csharp") {
        &["class_declaration", "struct_declaration", "interface_declaration", "namespace_declaration"]
    } else if text::str_eq(lang, "ruby") {
        &["class", "module"]
    } else {
        &[]
    };
    proof {
        assert(text::slices(r@) =~= scope_kinds(lang@));
    }
    r
}

// ---------------------------------------------------------------------------
// Settings
// ---------------------------------------------------------------------------

/// The number that a setting holds, if it is set to one.
pub open spec fn setting(value: Option<Seq<char>>) -> Option<nat> {
    match value {
        Some(s) => text::number(s, u64::MAX as nat),
        None => None,
    }
}

/// Age in seconds after which a collection is dropped, from a number of days:
/// 30 days where none is set or it is no number. No collection is dropped at 0.
pub fn ttl_secs_from(days: Option<&str>) -> (r: u64)
    ensures
        ({
            let d: nat = match setting(opt_slice(days)) {
                Some(n) => n,
                None => 30,
            };
            r == if d * 86_400 <= u64::MAX {
                d * 86_400
            } else {
                u64::MAX as nat
            }
        }),
{
    let d: u64 = match days {
        Some(s) => match text::parse_number(s, u64::MAX) {
            Some(n) => n,
            None => 30,
        },
        None => 30,
    };
    match d.checked_mul(86_400) {
        Some(secs) => secs,
        None => u64::MAX,
    }
}

/// Size in bytes of the largest file that is indexed: the setting where it is a
/// positive number, else 512 KiB.
pub fn max_file_bytes_from(value: Option<&str>) -> (r: u64)
    ensures
        r == match setting(opt_slice(value)) {
            Some(n) => if n > 0 {
                n
            } else {
                524_288
            },
            None => 524_288,
        },
{
    match value {
        Some(s) => match text::parse_number(s, u64::MAX) {
            Some(n) => if n > 0 {
                n
            } else {
                524_288
            },
            None => 524_288,
        },
        None => 524_288,
    }
}

/// A positive count from a setting, else the default.
pub fn count_from(value: Option<&str>, default: usize) -> (r: usize)
    ensures
        r == match opt_slice(value) {
            Some(s) => match text::number(s, usize::MAX as nat) {
                Some(n) => if n > 0 {
                    n
                } else {
                    default as nat
                },
                None => default as nat,
            },
            None => default as nat,
        },
{
    match value {
        Some(s) => match text::parse_number(s, usize::MAX as u64) {
            Some(n) => if n > 0 {
                n as usize
            } else {
                default
            },
            None => default,
        },
        None => default,
    }
}

/// Whether a flag is set: to `1`, or to `true` in any mix of cases.
pub open spec fn enabled(value: Option<Seq<char>>) -> bool {
    match value {
        Some(s) => s == "1"@ || text::ascii_lowered(s) == "true"@,
        None => false,
    }
}

/// Whether a flag is set.
pub fn flag_enabled(v: Option<&str>) -> (r: bool)
    ensures
        r == enabled(opt_slice(v)),
{
    match v {
        Some(s) => {
            let lower = text::ascii_lower_text(s);
            text::str_eq(s, "1") || text::str_eq(lower.as_str(), "true")
        },
        None => false,
    }
}

/// Whether sweeps only report, by the setting's value.
pub fn gc_dry_run(value: Option<&str>) -> (r: bool)
    ensures
        r == enabled(opt_slice(value)),
{
    flag_enabled(value)
}

/// How the tokens of a document are pooled into one vector.
#[derive(Debug, Clone, Copy, PartialEq, Eq, Structural)]
pub enum PoolingKind {
    Mean,
    Cls,
}

/// The pooling a setting asks for: `cls` or `CLS`, else the mean.
pub fn pooling_from(value: Option<&str>) -> (r: PoolingKind)
    ensures
        r == match opt_slice(value) {
            Some(s) => if s == "cls"@ || s == "CLS"@ {
                PoolingKind::Cls
            } else {
                PoolingKind::Mean
            },
            None => PoolingKind::Mean,
        },
{
    match value {
        Some(s) => if text::str_eq(s, "cls") || text::str_eq(s, "CLS") {
            PoolingKind::Cls
        } else {
            PoolingKind::Mean
        },
        None => PoolingKind::Mean,
    }
}

// ---------------------------------------------------------------------------
// Collection names
// ---------------------------------------------------------------------------

/// Whether `c` stays in a slug: an ASCII letter or digit, `.`, `_` or `-`.
pub open spec fn slug_kept(c: char) -> bool {
    ||| 'a' <= c <= 'z'
    ||| 'A' <= c <= 'Z'
    ||| '0' <= c <= '9'
    ||| c == '.'
    ||| c == '_'
    ||| c == '-'
}

/// What `c` becomes in a slug: lower case where it stays, else `-`.
pub open spec fn slug_char(c: char) -> char {
    if slug_kept(c) {
        text::ascii_lower(c)
    } else {
        '-'
    }
}

/// `s` with each character made fit for a slug.
pub open spec fn slug_chars(s: Seq<char>) -> Seq<char> {
    Seq::new(s.len(), |i: int| slug_char(s[i]))
}

/// `s` with each run of `-` reduced to one.
pub open spec fn single_dashes(s: Seq<char>) -> Seq<char>
    decreases s.len(),
{
    if s.len() == 0 {
        s
    } else if s.len() >= 2 && s.last() == '-' && s[s.len() - 2] == '-' {
        single_dashes(s.drop_last())
    } else {
        single_dashes(s.drop_last()).push(s.last())
    }
}

/// The slug of `raw`: lower case, everything outside `[a-z0-9._-]` a `-`, runs of
/// `-` reduced to one and none at either end.
pub open spec fn slug(raw: Seq<char>) -> Seq<char> {
    text::strip_end(text::strip_start(single_dashes(slug_chars(raw)), '-'), '-')
}

/// The slug of `raw`: lower case, everything outside `[a-z0-9._-]` a `-`, runs of
/// `-` reduced to one and none at either end.
pub fn sanitize_slug(raw: &str) -> (r: String)
    ensures
        r@ == slug(raw@),
{
    let v = text::chars_of(raw);
    let mut out: Vec<char> = Vec::new();
    let mut prev_dash = false;
    let mut i: usize = 0;
    let ghost mapped = slug_chars(raw@);
    while i < v.len()
        invariant
            v@ == raw@,
            mapped == slug_chars(raw@),
            i <= v@.len(),
            prev_dash == (i > 0 && mapped[i - 1] == '-'),
            out@ == single_dashes(mapped.take(i as int)),
        decreases v@.len() - i,
    {
        let c = v[i];
        let keep = ('a' <= c && c <= 'z') || ('A' <= c && c <= 'Z') || ('0' <= c && c <= '9') || c
            == '.' || c == '_' || c == '-';
        let c = if keep {
            text::to_ascii_lower(c)
        } else {
            '-'
        };
        proof {
            assert(mapped.take(i + 1).drop_last() == mapped.take(i as int));
            assert(mapped.take(i + 1).last() == c);
            assert(i > 0 ==> mapped.take(i + 1)[i - 1] == mapped[i - 1]);
        }
        if !(c == '-' && prev_dash) {
            out.push(c);
        }
        prev_dash = c == '-';
        i = i + 1;
    }
    proof {
        assert(mapped.take(raw@.len() as int) == mapped);
        assert(out@.subrange(0, out@.len() as int) == out@);
    }
    let from = text::skip_start(&out, 0, out.len(), '-');
    let to = text::skip_end(&out, from, out.len(), '-');
    text::text_of(&out, from, to)
}

/// The name of a collection for a slug: the slug behind `code-`, and where that would
/// be too long its start and a hash.
pub open spec fn named(slug: Seq<char>, hash: Seq<char>) -> Seq<char> {
    if slug.len() <= 58 {
        "code-"@ + slug
    } else {
        "code-"@ + slug.take(49) + "-"@ + hash
    }
}

/// The name of a collection for a slug.
pub fn named_collection(slug: &str, hash: &str) -> (r: String)
    ensures
        r@ == named(slug@, hash@),
{
    let v = text::chars_of(slug);
    let mut name = "code-".to_string();
    if v.len() <= 58 {
        name.append(slug);
        return name;
    }
    let head = text::text_of(&v, 0, 49);
    proof {
        assert(head@ == slug@.take(49));
    }
    name.append(head.as_str());
    name.append("-");
    name.append(hash);
    name
}

/// The name of a collection: that of the text's slug, and the hash is that of the text.
pub open spec fn collection_of(raw: Seq<char>) -> Seq<char> {
    named(slug(raw), digest::short_hash(raw, 4))
}

/// The name of a collection. It has at most 63 characters.
pub fn finalize_collection(raw: &str) -> (r: String)
    ensures
        r@ == collection_of(raw@),
        collection_form(r@),
        digest::short_hash(raw@, 4).len() == 8,
{
    let s = sanitize_slug(raw);
    let hash = digest::short_hash_text(raw, 4);
    proof {
        lemma_collection_form(raw@);
    }
    named_collection(s.as_str(), hash.as_str())
}

/// The name of the collection that holds the manifests beside a collection of chunks.
pub fn manifest_collection_name(collection: &str) -> (r: String)
    ensures
        r@ == collection_of(collection@ + "-manifest"@),
        collection_form(r@),
{
    let mut raw = collection.to_string();
    raw.append("-manifest");
    finalize_collection(raw.as_str())
}

/// What stands for a root without a git remote: its own name and 8 hexadecimal digits
/// of the digest of its path.
pub open spec fn fallback_identity(root: Seq<char>) -> Seq<char> {
    let base = match paths::name_of(root) {
        Some(n) => n,
        None => "unknown"@,
    };
    base + "-"@ + digest::short_hash(root, 4)
}

/// The name for a root without a git remote.
pub open spec fn fallback_collection(root: Seq<char>) -> Seq<char> {
    collection_of(fallback_identity(root))
}

/// The hash at the end of the name for a root without a git remote: that of its path,
/// or, where the name is cut short, that of the whole.
pub open spec fn fallback_hash(root: Seq<char>) -> Seq<char> {
    if slug(fallback_identity(root)).len() <= 58 {
        digest::short_hash(root, 4)
    } else {
        digest::short_hash(fallback_identity(root), 4)
    }
}

/// The collection name for a root without a git remote: `code-<name>-<hash>`,
/// where the hash tells apart roots of one name.
pub fn fallback_collection_name(root: &str) -> (r: String)
    ensures
        r@ == fallback_collection(root@),
        collection_form(r@),
        fallback_hash(root@).len() == 8,
        forall|i: int| 0 <= i < 8 ==> digest::is_hex(#[trigger] fallback_hash(root@)[i]),
        text::has_suffix(r@, fallback_hash(root@)),
{
    let mut raw = match paths::file_name(root) {
        Some(n) => n,
        None => "unknown".to_string(),
    };
    let hash = digest::short_hash_text(root, 4);
    raw.append("-");
    raw.append(hash.as_str());
    let name = finalize_collection(raw.as_str());
    proof {
        lemma_fallback_suffix(root@);
    }
    name
}

// ---------------------------------------------------------------------------
// Git identity
// ---------------------------------------------------------------------------

/// What follows the last `@` of `s`; all of it where there is none.
pub open spec fn after_last_at(s: Seq<char>) -> Seq<char> {
    match text::rfind(s, '@') {
        Some(k) => s.skip((k + 1) as int),
        None => s,
    }
}

/// Host and path of a remote address, without its scheme and its user.
pub open spec fn host_and_path(s: Seq<char>) -> Seq<char> {
    match text::split_once(s, "://"@) {
        Some((_, rest)) => match text::split_once(rest, "@"@) {
            Some((_, after)) => after,
            None => rest,
        },
        None => match text::split_once(s, ":"@) {
            Some((before, after)) => after_last_at(before) + "/"@ + after,
            None => s,
        },
    }
}

/// `s` without `pat` at its start, where it stands there.
pub open spec fn without_prefix(s: Seq<char>, pat: Seq<char>) -> Seq<char> {
    if text::has_prefix(s, pat) {
        s.skip(pat.len() as int)
    } else {
        s
    }
}

/// `s` without `pat` at its end, where it stands there.
pub open spec fn without_suffix(s: Seq<char>, pat: Seq<char>) -> Seq<char> {
    if text::has_suffix(s, pat) {
        s.take(s.len() - pat.len())
    } else {
        s
    }
}

/// The path of a remote address, without its host.
pub open spec fn remote_path(url: Seq<char>) -> Seq<char> {
    let s = without_prefix(text::trimmed(url), "git+"@);
    let full = without_suffix(text::strip_end(host_and_path(s), '/'), ".git"@);
    let path = match text::split_once(full, "/"@) {
        Some((_, after)) => after,
        None => full,
    };
    text::strip_end(text::strip_start(path, '/'), '/')
}

/// What stands before and after the first `pat` in `s`.
fn cut_once(s: &str, pat: &str) -> (r: Option<(String, String)>)
    ensures
        match r {
            Some((a, b)) => text::split_once(s@, pat@) == Some((a@, b@)),
            None => text::split_once(s@, pat@) is None,
        },
{
    let v = text::chars_of(s);
    let p = text::chars_of(pat);
    proof {
        assert(v@.subrange(0, v@.len() as int) == s@);
    }
    match text::find_at(&v, 0, v.len(), &p) {
        Some(k) => {
            let a = text::text_of(&v, 0, k);
            let b = text::text_of(&v, k + p.len(), v.len());
            proof {
                assert(a@ == s@.take(k as int));
                assert(b@ == s@.skip((k + p@.len()) as int));
            }
            Some((a, b))
        },
        None => None,
    }
}

fn host_path_text(s: &str) -> (r: String)
    ensures
        r@ == host_and_path(s@),
{
    match cut_once(s, "://") {
        Some((_, rest)) => match cut_once(rest.as_str(), "@") {
            Some((_, after)) => after,
            None => rest,
        },
        None => match cut_once(s, ":") {
            Some((before, after)) => {
                let v = text::chars_of(before.as_str());
                proof {
                    assert(v@.subrange(0, v@.len() as int) == before@);
                }
                let from: usize = match text::rfind_at(&v, 0, v.len(), '@') {
                    Some(k) => k + 1,
                    None => 0,
                };
                let mut r = text::text_of(&v, from, v.len());
                proof {
                    assert(r@ == after_last_at(before@));
                }
                r.append("/");
                r.append(after.as_str());
                r
            },
            None => s.to_string(),
        },
    }
}

/// The path of a git remote address without its host, or `None` where it has
/// none. `git@h:o/r.git`, `https://h/o/r` and `ssh://git@h/o/r.git` all give `o/r`.
pub fn normalize_remote(url: &str) -> (r: Option<String>)
    ensures
        match r {
            Some(p) => p@ == remote_path(url@) && p@.len() > 0,
            None => remote_path(url@).len() == 0,
        },
{
    let t = text::trim(url);
    let v = text::chars_of(t.as_str());
    let from: usize = if text::starts_with(t.as_str(), "git+") {
        proof {
            reveal_strlit("git+");
        }
        4
    } else {
        0
    };
    let s = text::text_of(&v, from, v.len());
    proof {
        reveal_strlit("git+");
        assert(s@ == without_prefix(text::trimmed(url@), "git+"@));
    }
    let host_path = host_path_text(s.as_str());
    let h = text::chars_of(host_path.as_str());
    proof {
        assert(h@.subrange(0, h@.len() as int) == h@);
    }
    let end = text::skip_end(&h, 0, h.len(), '/');
    let stripped = text::text_of(&h, 0, end);
    let w = text::chars_of(stripped.as_str());
    let stop: usize = if text::ends_with(stripped.as_str(), ".git") {
        proof {
            reveal_strlit(".git");
        }
        w.len() - 4
    } else {
        w.len()
    };
    let full = text::text_of(&w, 0, stop);
    proof {
        reveal_strlit(".git");
        assert(full@ == without_suffix(stripped@, ".git"@));
    }
    let path = match cut_once(full.as_str(), "/") {
        Some((_, after)) => after,
        None => full,
    };
    let q = text::chars_of(path.as_str());
    proof {
        assert(q@.subrange(0, q@.len() as int) == q@);
    }
    let a = text::skip_start(&q, 0, q.len(), '/');
    let b = text::skip_end(&q, a, q.len(), '/');
    if a == b {
        return None;
    }
    Some(text::text_of(&q, a, b))
}

/// What git answered: the trimmed text of its output, where it succeeded and there
/// is any.
pub open spec fn git_answer(success: bool, stdout: Seq<u8>) -> Option<Seq<char>> {
    if success && valid_utf8(stdout) && text::trimmed(decode_utf8(stdout)).len() > 0 {
        Some(text::trimmed(decode_utf8(stdout)))
    } else {
        None
    }
}

/// What git answered.
pub fn git_output(success: bool, stdout: Vec<u8>) -> (r: Option<String>)
    ensures
        match r {
            Some(s) => git_answer(success, stdout@) == Some(s@),
            None => git_answer(success, stdout@) is None,
        },
{
    if !success {
        return None;
    }
    match text::utf8_text(stdout) {
        Some(s) => {
            proof {
                encode_utf8_decode_utf8(s@);
            }
            let answer = text::trim(s.as_str());
            if answer.as_str().is_empty() {
                None
            } else {
                Some(answer)
            }
        },
        None => None,
    }
}

/// `s` with each `\` replaced by `/`.
pub open spec fn slashed(s: Seq<char>) -> Seq<char> {
    Seq::new(
        s.len(),
        |i: int|
            if s[i] == '\\' {
                '/'
            } else {
                s[i]
            },
    )
}

fn slashed_text(s: &str) -> (r: String)
    ensures
        r@ == slashed(s@),
{
    let v = text::chars_of(s);
    let mut r: String = String::new();
    let mut i: usize = 0;
    while i < v.len()
        invariant
            v@ == s@,
            i <= v@.len(),
            r@ == slashed(s@).take(i as int),
        decreases v@.len() - i,
    {
        r.push(if v[i] == '\\' { '/' } else { v[i] });
        proof {
            assert(r@ =~= slashed(s@).take(i + 1));
        }
        i = i + 1;
    }
    proof {
        assert(slashed(s@).take(s@.len() as int) =~= slashed(s@));
    }
    r
}

/// The git identity of `root`: the path of the remote, followed by the path of
/// `root` below the top of the working tree where it is not the top itself.
/// `None` without a working tree or without a remote that has a path.
pub open spec fn git_identity(
    root: Seq<char>,
    toplevel: Option<Seq<char>>,
    remote: Option<Seq<char>>,
) -> Option<Seq<char>> {
    match (toplevel, remote) {
        (Some(top), Some(url)) => {
            let path = remote_path(url);
            if path.len() == 0 {
                None
            } else {
                match paths::relative(root, top) {
                    Some(rel) => if rel.len() > 0 {
                        Some(path + "/"@ + slashed(rel))
                    } else {
                        Some(path)
                    },
                    None => Some(path),
                }
            }
        },
        _ => None,
    }
}

/// The git identity `owner/repo[/subpath]` of `root`, from what git says of its
/// working tree (`toplevel`) and of its `origin` (`remote`).
pub fn git_slug(root: &str, toplevel: Option<&str>, remote: Option<&str>) -> (r: Option<String>)
    ensures
        paths::opt_text(r) == git_identity(root@, opt_slice(toplevel), opt_slice(remote)),
{
    match (toplevel, remote) {
        (Some(top), Some(url)) => match normalize_remote(url) {
            Some(mut path) => {
                match paths::strip_prefix(root, top) {
                    Some(rel) => {
                        if !rel.as_str().is_empty() {
                            let tail = slashed_text(rel.as_str());
                            path.append("/");
                            path.append(tail.as_str());
                        }
                    },
                    None => {},
                }
                Some(path)
            },
            None => None,
        },
        _ => None,
    }
}

/// The collection name of a root: from its git identity, else from its path.
pub open spec fn collection_for(
    root: Seq<char>,
    toplevel: Option<Seq<char>>,
    remote: Option<Seq<char>>,
) -> Seq<char> {
    match git_identity(root, toplevel, remote) {
        Some(id) => collection_of(id),
        None => fallback_collection(root),
    }
}

/// The collection name of `root`. With a git remote it is `code-<owner>-<repo>`,
/// followed by the path of `root` inside the repository, and so the same for
/// every clone; without one it is made of the path of `root`.
pub fn collection_name(root: &str, toplevel: Option<&str>, remote: Option<&str>) -> (r: String)
    ensures
        r@ == collection_for(root@, opt_slice(toplevel), opt_slice(remote)),
        collection_form(r@),
{
    match git_slug(root, toplevel, remote) {
        Some(id) => finalize_collection(id.as_str()),
        None => fallback_collection_name(root),
    }
}

// ---------------------------------------------------------------------------
// Laws
// ---------------------------------------------------------------------------

/// Whether `c` can stand in a slug.
pub open spec fn slug_output(c: char) -> bool {
    'a' <= c <= 'z' || '0' <= c <= '9' || c == '.' || c == '_' || c == '-'
}

/// The form of a slug: made of `[a-z0-9._-]`, with no `-` at either end and no two
/// in a row.
pub open spec fn slug_form(s: Seq<char>) -> bool {
    &&& forall|i: int| 0 <= i < s.len() ==> slug_output(#[trigger] s[i])
    &&& forall|i: int| 0 < i < s.len() && #[trigger] s[i] == '-' ==> s[i - 1] != '-'
    &&& s.len() > 0 ==> s[0] != '-' && s.last() != '-'
}

proof fn lemma_single_dashes(s: Seq<char>)
    requires
        forall|i: int| 0 <= i < s.len() ==> slug_output(#[trigger] s[i]),
    ensures
        ({
            let r = single_dashes(s);
            &&& forall|i: int| 0 <= i < r.len() ==> slug_output(#[trigger] r[i])
            &&& forall|i: int| 0 < i < r.len() && #[trigger] r[i] == '-' ==> r[i - 1] != '-'
            &&& s.len() > 0 ==> r.len() > 0 && r.last() == s.last()
        }),
    decreases s.len(),
{
    if s.len() > 0 {
        let t = s.drop_last();
        lemma_single_dashes(t);
        let q = single_dashes(t);
        let r = single_dashes(s);
        if s.len() >= 2 && s.last() == '-' && s[s.len() - 2] == '-' {
            assert(r == q && t.last() == s.last());
        } else {
            assert(r == q.push(s.last()));
            if t.len() == 0 {
                assert(q.len() == 0);
            }
            assert forall|i: int| 0 < i < r.len() && #[trigger] r[i] == '-' implies r[i - 1]
                != '-' by {
                if i < q.len() {
                    assert(q[i] == r[i]);
                } else {
                    assert(r[i - 1] == q.last());
                }
            }
        }
    }
}

proof fn lemma_strip_start(s: Seq<char>, c: char)
    ensures
        text::strip_start(s, c).len() <= s.len(),
        text::strip_start(s, c) == s.skip(s.len() - text::strip_start(s, c).len()),
        text::strip_start(s, c).len() > 0 ==> text::strip_start(s, c)[0] != c,
    decreases s.len(),
{
    if s.len() > 0 && s[0] == c {
        let t = s.drop_first();
        lemma_strip_start(t, c);
        let n = text::strip_start(t, c).len();
        assert(t.skip(t.len() - n) =~= s.skip(s.len() - n));
    } else {
        assert(s.skip(0) =~= s);
    }
}

proof fn lemma_strip_end(s: Seq<char>, c: char)
    ensures
        text::strip_end(s, c).len() <= s.len(),
        text::strip_end(s, c) == s.take(text::strip_end(s, c).len() as int),
        text::strip_end(s, c).len() > 0 ==> text::strip_end(s, c).last() != c,
    decreases s.len(),
{
    if s.len() > 0 && s.last() == c {
        let t = s.drop_last();
        lemma_strip_end(t, c);
        let n = text::strip_end(t, c).len() as int;
        assert(t.take(n) =~= s.take(n));
    } else {
        assert(s.take(s.len() as int) =~= s);
    }
}

/// A slug has the form of one.
pub proof fn law_slug_form(raw: Seq<char>)
    ensures
        slug_form(slug(raw)),
{
    let mapped = slug_chars(raw);
    lemma_single_dashes(mapped);
    let a = single_dashes(mapped);
    lemma_strip_start(a, '-');
    let b = text::strip_start(a, '-');
    lemma_strip_end(b, '-');
    let r = text::strip_end(b, '-');
    let d = a.len() - b.len();
    assert forall|i: int| 0 <= i < r.len() implies slug_output(#[trigger] r[i]) by {
        assert(r[i] == a[d + i]);
    }
    assert forall|i: int| 0 < i < r.len() && #[trigger] r[i] == '-' implies r[i - 1] != '-' by {
        assert(r[i] == a[d + i]);
        assert(r[i - 1] == a[d + i - 1]);
    }
    if r.len() > 0 {
        assert(r[0] == b[0]);
    }
}

proof fn lemma_single_dashes_keeps(s: Seq<char>)
    requires
        forall|i: int| 0 < i < s.len() && #[trigger] s[i] == '-' ==> s[i - 1] != '-',
    ensures
        single_dashes(s) == s,
    decreases s.len(),
{
    if s.len() > 0 {
        lemma_single_dashes_keeps(s.drop_last());
        assert(s.drop_last().push(s.last()) =~= s);
    }
}

/// What has the form of a slug is its own slug.
pub proof fn law_slug_keeps_slugs(s: Seq<char>)
    requires
        slug_form(s),
    ensures
        slug(s) == s,
{
    assert(slug_chars(s) =~= s);
    lemma_single_dashes_keeps(s);
}

/// A collection name starts with `code-`, is at most 63 characters long, and holds
/// nothing but `[a-z0-9._-]`.
pub open spec fn collection_form(name: Seq<char>) -> bool {
    &&& text::has_prefix(name, "code-"@)
    &&& name.len() <= 63
    &&& forall|i: int| 0 <= i < name.len() ==> slug_output(#[trigger] name[i])
}

proof fn lemma_collection_form(raw: Seq<char>)
    requires
        slug(raw).len() > 58 ==> digest::sha1_digest(vstd::utf8::encode_utf8(raw)).len() == 20,
    ensures
        collection_form(collection_of(raw)),
{
    reveal_strlit("code-");
    reveal_strlit("-");
    law_slug_form(raw);
    let r = collection_of(raw);
    assert(r.take(5) =~= "code-"@);
}

proof fn lemma_hex_in_slug(bytes: Seq<u8>)
    ensures
        forall|i: int|
            0 <= i < digest::hex(bytes).len() ==> slug_output(#[trigger] digest::hex(bytes)[i])
                && digest::hex(bytes)[i] != '-' && slug_char(digest::hex(bytes)[i])
                == digest::hex(bytes)[i],
{
}

proof fn lemma_single_dashes_tail(s: Seq<char>, h: Seq<char>)
    requires
        forall|i: int| 0 <= i < h.len() ==> #[trigger] h[i] != '-',
    ensures
        single_dashes(s + h) == single_dashes(s) + h,
    decreases h.len(),
{
    if h.len() == 0 {
        assert(s + h =~= s);
        assert(single_dashes(s) + h =~= single_dashes(s));
    } else {
        let t = h.drop_last();
        lemma_single_dashes_tail(s, t);
        assert(h[h.len() - 1] != '-');
        assert((s + h).drop_last() =~= s + t);
        assert((s + h).last() == h.last());
        assert((single_dashes(s) + t).push(h.last()) =~= single_dashes(s) + h);
    }
}

proof fn lemma_strip_start_tail(s: Seq<char>, h: Seq<char>, c: char)
    requires
        h.len() > 0,
        h[0] != c,
    ensures
        text::strip_start(s + h, c) == text::strip_start(s, c) + h,
    decreases s.len(),
{
    if s.len() == 0 {
        assert(s + h =~= h);
        assert(text::strip_start(s, c) + h =~= h);
    } else if s[0] == c {
        lemma_strip_start_tail(s.drop_first(), h, c);
        assert((s + h).drop_first() =~= s.drop_first() + h);
    } else {
        assert((s + h)[0] == s[0]);
    }
}

/// The slug of a text that ends in hexadecimal digits ends in them too.
proof fn lemma_slug_tail(s: Seq<char>, bytes: Seq<u8>)
    requires
        bytes.len() > 0,
    ensures
        text::has_suffix(slug(s + digest::hex(bytes)), digest::hex(bytes)),
{
    let h = digest::hex(bytes);
    lemma_hex_in_slug(bytes);
    assert(slug_chars(s + h) =~= slug_chars(s) + h);
    lemma_single_dashes_tail(slug_chars(s), h);
    assert(h[0] != '-');
    lemma_strip_start_tail(single_dashes(slug_chars(s)), h, '-');
    let start = text::strip_start(single_dashes(slug_chars(s)), '-');
    assert(h[h.len() - 1] != '-');
    assert((start + h).last() == h.last());
    assert((start + h).skip(start.len() as int) =~= h);
}

proof fn lemma_fallback_suffix(root: Seq<char>)
    requires
        fallback_hash(root).len() == 8,
    ensures
        text::has_suffix(fallback_collection(root), fallback_hash(root)),
{
    let raw = fallback_identity(root);
    let name = fallback_collection(root);
    let h = fallback_hash(root);
    if slug(raw).len() <= 58 {
        let base = match paths::name_of(root) {
            Some(n) => n,
            None => "unknown"@,
        };
        let bytes = digest::sha1_digest(vstd::utf8::encode_utf8(root)).take(4);
        lemma_slug_tail(base + "-"@, bytes);
        assert(name.skip(name.len() - h.len()) =~= slug(raw).skip(slug(raw).len() - h.len()));
    } else {
        assert(name.skip(name.len() - h.len()) =~= h);
    }
}

/// Roots without a git remote are told apart: where the hashes at the end of their names
/// differ, so do their collections, whatever the roots are called. The hashes have 8
/// digits, as `fallback_collection_name` ensures.
pub proof fn law_fallback_names_differ(
    a: Seq<char>,
    b: Seq<char>,
    top_a: Option<Seq<char>>,
    top_b: Option<Seq<char>>,
    remote_a: Option<Seq<char>>,
    remote_b: Option<Seq<char>>,
)
    requires
        git_identity(a, top_a, remote_a) is None,
        git_identity(b, top_b, remote_b) is None,
        fallback_hash(a).len() == 8,
        fallback_hash(b).len() == 8,
        fallback_hash(a) != fallback_hash(b),
    ensures
        collection_for(a, top_a, remote_a) != collection_for(b, top_b, remote_b),
{
    lemma_fallback_suffix(a);
    lemma_fallback_suffix(b);
}

/// A root without a git remote whose own name is a slug of at most 49 characters is
/// indexed as `code-<name>-<hash>`, with the hash of its path.
pub proof fn law_fallback_name_form(
    root: Seq<char>,
    name: Seq<char>,
    top: Option<Seq<char>>,
    remote: Option<Seq<char>>,
)
    requires
        git_identity(root, top, remote) is None,
        paths::name_of(root) == Some(name),
        slug_form(name),
        0 < name.len() <= 49,
        digest::short_hash(root, 4).len() == 8,
    ensures
        collection_for(root, top, remote) == "code-"@ + name + "-"@ + digest::short_hash(root, 4),
        fallback_hash(root) == digest::short_hash(root, 4),
{
    reveal_strlit("-");
    let h = digest::short_hash(root, 4);
    let raw = fallback_identity(root);
    lemma_hex_in_slug(digest::sha1_digest(vstd::utf8::encode_utf8(root)).take(4));
    assert forall|i: int| 0 <= i < raw.len() implies slug_output(#[trigger] raw[i]) by {
        if i < name.len() {
            assert(raw[i] == name[i]);
        } else if i > name.len() {
            assert(raw[i] == h[i - name.len() - 1]);
        }
    }
    assert forall|i: int| 0 < i < raw.len() && #[trigger] raw[i] == '-' implies raw[i - 1]
        != '-' by {
        if i < name.len() {
            assert(raw[i] == name[i] && raw[i - 1] == name[i - 1]);
        } else if i == name.len() {
            assert(raw[i - 1] == name.last());
        } else {
            assert(raw[i] == h[i - name.len() - 1]);
        }
    }
    assert(raw[0] == name[0]);
    assert(raw.last() == h[7]);
    law_slug_keeps_slugs(raw);
    assert("code-"@ + raw =~= "code-"@ + name + "-"@ + h);
}

/// Names are told apart by their slugs, and by their hashes where both are cut short.
pub proof fn law_names_differ(a: Seq<char>, b: Seq<char>)
    requires
        (slug(a).len() <= 58 && slug(b).len() <= 58 && slug(a) != slug(b)) || (slug(a).len() > 58
            && slug(b).len() > 58 && digest::short_hash(a, 4) != digest::short_hash(b, 4)),
    ensures
        collection_of(a) != collection_of(b),
{
    let x = collection_of(a);
    let y = collection_of(b);
    reveal_strlit("-");
    reveal_strlit("code-");
    if slug(a).len() <= 58 {
        assert(x.skip(5) =~= slug(a));
        assert(y.skip(5) =~= slug(b));
    } else {
        assert(x.skip(55) =~= digest::short_hash(a, 4));
        assert(y.skip(55) =~= digest::short_hash(b, 4));
    }
}

/// Whether a text can be the host of a remote address.
pub open spec fn plain_host(h: Seq<char>) -> bool {
    &&& h.len() > 0
    &&& forall|i: int|
        0 <= i < h.len() ==> {
            &&& #[trigger] h[i] != '/'
            &&& h[i] != ':'
            &&& h[i] != '@'
        }
}

/// Whether a text can be the path of a repository in a remote address.
pub open spec fn plain_path(p: Seq<char>) -> bool {
    &&& p.len() > 0
    &&& p[0] != '/'
    &&& p.last() != '/'
    &&& !text::white_space(p.last())
    &&& !text::has_suffix(p, ".git"@)
    &&& forall|i: int|
        0 <= i < p.len() ==> {
            &&& #[trigger] p[i] != ':'
            &&& p[i] != '@'
        }
}

proof fn lemma_find_is(s: Seq<char>, pat: Seq<char>, k: int)
    requires
        pat.len() > 0,
        0 <= k <= s.len(),
        text::has_prefix(s.skip(k), pat),
        forall|j: int| 0 <= j < k ==> #[trigger] s[j] != pat[0],
    ensures
        text::find(s, pat) == Some(k as nat),
    decreases k,
{
    if k == 0 {
        assert(s.skip(0) =~= s);
    } else {
        let t = s.drop_first();
        assert(t.skip(k - 1) =~= s.skip(k));
        assert forall|j: int| 0 <= j < k - 1 implies #[trigger] t[j] != pat[0] by {
            assert(t[j] == s[j + 1]);
        }
        if text::has_prefix(s, pat) {
            assert(s.take(pat.len() as int)[0] == s[0]);
        }
        lemma_find_is(t, pat, k - 1);
    }
}

proof fn lemma_find_none(s: Seq<char>, pat: Seq<char>)
    requires
        pat.len() > 0,
        forall|j: int| 0 <= j < s.len() && #[trigger] s[j] == pat[0] ==> !text::has_prefix(s.skip(j), pat),
    ensures
        text::find(s, pat) is None,
    decreases s.len(),
{
    if s.len() > 0 {
        let t = s.drop_first();
        if text::has_prefix(s, pat) {
            assert(s.take(pat.len() as int)[0] == s[0]);
            assert(s.skip(0) =~= s);
        }
        assert forall|j: int|
            0 <= j < t.len() && #[trigger] t[j] == pat[0] implies !text::has_prefix(t.skip(j), pat) by {
            assert(t[j] == s[j + 1]);
            assert(t.skip(j) =~= s.skip(j + 1));
        }
        lemma_find_none(t, pat);
    }
}

proof fn lemma_trimmed_keeps(s: Seq<char>)
    requires
        s.len() > 0,
        !text::white_space(s[0]),
        !text::white_space(s.last()),
    ensures
        text::trimmed(s) == s,
{
}

/// The path of `host/path` and of `host/path.git` is `path`.
proof fn lemma_path_of(h: Seq<char>, p: Seq<char>, full: Seq<char>)
    requires
        plain_host(h),
        plain_path(p),
        full == h + "/"@ + p || full == h + "/"@ + p + ".git"@,
    ensures
        ({
            let bare = without_suffix(text::strip_end(full, '/'), ".git"@);
            let path = match text::split_once(bare, "/"@) {
                Some((_, after)) => after,
                None => bare,
            };
            text::strip_end(text::strip_start(path, '/'), '/') == p
        }),
{
    reveal_strlit("/");
    reveal_strlit(".git");
    let bare = h + "/"@ + p;
    let n = h.len() as int;
    assert(full.last() != '/') by {
        if full == bare {
            assert(full.last() == p.last());
        } else {
            assert(full.last() == 't');
        }
    }
    assert(text::strip_end(full, '/') == full);
    if full == bare {
        if text::has_suffix(full, ".git"@) {
            let tail = full.skip(full.len() - 4);
            if p.len() >= 4 {
                assert(tail =~= p.skip(p.len() - 4));
            } else {
                assert(tail[4 - p.len() - 1] == '/');
                assert(".git"@[4 - p.len() - 1] != '/');
            }
        }
        assert(without_suffix(full, ".git"@) == bare);
    } else {
        assert(full.skip(full.len() - 4) =~= ".git"@);
        assert(full.take(full.len() - 4) =~= bare);
    }
    assert(bare.skip(n).take(1) =~= "/"@);
    assert forall|j: int| 0 <= j < n implies #[trigger] bare[j] != "/"@[0] by {
        assert(bare[j] == h[j]);
    }
    lemma_find_is(bare, "/"@, n);
    assert(bare.skip(n + 1) =~= p);
}

proof fn lemma_https_path(h: Seq<char>, tail: Seq<char>)
    requires
        plain_host(h),
        forall|i: int| 0 <= i < tail.len() ==> #[trigger] tail[i] != '@',
    ensures
        host_and_path("https://"@ + h + "/"@ + tail) == h + "/"@ + tail,
{
    reveal_strlit("https://");
    reveal_strlit("://");
    reveal_strlit("@");
    reveal_strlit("/");
    let n = h.len() as int;
    let b = "https://"@ + h + "/"@ + tail;
    assert(b.skip(5).take(3) =~= "://"@);
    assert forall|j: int| 0 <= j < 5 implies #[trigger] b[j] != "://"@[0] by {}
    lemma_find_is(b, "://"@, 5);
    let bare = h + "/"@ + tail;
    assert(b.skip(8) =~= bare);
    assert forall|j: int| 0 <= j < bare.len() && #[trigger] bare[j] == "@"@[0] implies !text::has_prefix(
        bare.skip(j),
        "@"@,
    ) by {
        if j < n {
            assert(bare[j] == h[j]);
        } else if j > n {
            assert(bare[j] == tail[j - n - 1]);
        }
    }
    lemma_find_none(bare, "@"@);
}

proof fn lemma_git_form(h: Seq<char>, p: Seq<char>)
    requires
        plain_host(h),
        plain_path(p),
    ensures
        remote_path("git@"@ + h + ":"@ + p + ".git"@) == p,
{
    reveal_strlit("git@");
    reveal_strlit("git+");
    reveal_strlit("://");
    reveal_strlit(":");
    reveal_strlit("@");
    reveal_strlit("/");
    reveal_strlit(".git");
    let n = h.len() as int;
    let a = "git@"@ + h + ":"@ + p + ".git"@;
    assert(a[0] == 'g' && a.last() == 't');
    lemma_trimmed_keeps(a);
    assert(!text::has_prefix(a, "git+"@)) by {
        assert(a.take(4)[3] == '@');
    }
    assert forall|j: int| 0 <= j < a.len() && #[trigger] a[j] == "://"@[0] implies !text::has_prefix(
        a.skip(j),
        "://"@,
    ) by {
        if 4 <= j < 4 + n {
            assert(a[j] == h[j - 4]);
        } else if 4 + n < j < 5 + n + p.len() {
            assert(a[j] == p[j - 5 - n]);
        }
        assert(j == 4 + n);
        assert(a.skip(j).take(3)[1] == p[0]);
    }
    lemma_find_none(a, "://"@);
    assert(a.skip(4 + n).take(1) =~= ":"@);
    assert forall|j: int| 0 <= j < 4 + n implies #[trigger] a[j] != ":"@[0] by {
        if j >= 4 {
            assert(a[j] == h[j - 4]);
        }
    }
    lemma_find_is(a, ":"@, 4 + n);
    let before = a.take(4 + n);
    assert(before =~= "git"@ + seq!['@'] + h) by {
        reveal_strlit("git");
    }
    text::lemma_rfind_after("git"@, h, '@');
    reveal_strlit("git");
    assert(before.skip(4) =~= h);
    assert(after_last_at(before) == h);
    assert(a.skip(4 + n + 1) =~= p + ".git"@);
    let full = h + "/"@ + p + ".git"@;
    assert(h + "/"@ + (p + ".git"@) =~= full);
    assert(host_and_path(a) == full);
    lemma_path_of(h, p, full);
}

proof fn lemma_https_forms(h: Seq<char>, p: Seq<char>)
    requires
        plain_host(h),
        plain_path(p),
    ensures
        remote_path("https://"@ + h + "/"@ + p) == p,
        remote_path("https://"@ + h + "/"@ + p + ".git"@) == p,
        remote_path("git+https://"@ + h + "/"@ + p + ".git"@) == p,
{
    reveal_strlit("git+");
    reveal_strlit("https://");
    reveal_strlit("git+https://");
    reveal_strlit("/");
    reveal_strlit(".git");
    let full = h + "/"@ + p + ".git"@;
    lemma_path_of(h, p, full);
    let b = "https://"@ + h + "/"@ + p;
    assert(b[0] == 'h' && b.last() == p.last());
    lemma_trimmed_keeps(b);
    assert(!text::has_prefix(b, "git+"@)) by {
        assert(b.take(4)[0] == 'h');
    }
    lemma_https_path(h, p);
    lemma_path_of(h, p, h + "/"@ + p);

    let d = "https://"@ + h + "/"@ + p + ".git"@;
    let named = p + ".git"@;
    assert(d =~= "https://"@ + h + "/"@ + named);
    assert(d[0] == 'h' && d.last() == 't');
    lemma_trimmed_keeps(d);
    assert(!text::has_prefix(d, "git+"@)) by {
        assert(d.take(4)[0] == 'h');
    }
    assert forall|i: int| 0 <= i < named.len() implies #[trigger] named[i] != '@' by {
        if i < p.len() {
            assert(named[i] == p[i]);
        }
    }
    lemma_https_path(h, named);
    assert(h + "/"@ + named =~= full);

    let e = "git+https://"@ + h + "/"@ + p + ".git"@;
    assert(e[0] == 'g' && e.last() == 't');
    lemma_trimmed_keeps(e);
    assert(e.take(4) =~= "git+"@);
    assert(e.skip(4) =~= d);
}

proof fn lemma_user_form(h: Seq<char>, p: Seq<char>, user: Seq<char>)
    requires
        plain_host(h),
        plain_path(p),
        forall|i: int| 0 <= i < user.len() ==> #[trigger] user[i] != '@',
    ensures
        remote_path("https://"@ + user + "@"@ + h + "/"@ + p + "/"@) == p,
{
    reveal_strlit("git+");
    reveal_strlit("https://");
    reveal_strlit("://");
    reveal_strlit("@");
    reveal_strlit("/");
    lemma_path_of(h, p, h + "/"@ + p);
    let u = "https://"@ + user + "@"@ + h + "/"@ + p + "/"@;
    assert(u[0] == 'h' && u.last() == '/');
    lemma_trimmed_keeps(u);
    assert(!text::has_prefix(u, "git+"@)) by {
        assert(u.take(4)[0] == 'h');
    }
    assert(u.skip(5).take(3) =~= "://"@);
    assert forall|j: int| 0 <= j < 5 implies #[trigger] u[j] != "://"@[0] by {}
    lemma_find_is(u, "://"@, 5);
    let own = u.skip(8);
    let m = user.len() as int;
    assert(own.skip(m).take(1) =~= "@"@);
    assert forall|j: int| 0 <= j < m implies #[trigger] own[j] != "@"@[0] by {
        assert(own[j] == user[j]);
    }
    lemma_find_is(own, "@"@, m);
    let slashed = h + "/"@ + p + "/"@;
    assert(own.skip(m + 1) =~= slashed);
    assert(host_and_path(u) == slashed);
    assert(slashed.last() == '/');
    assert(slashed.drop_last() =~= h + "/"@ + p);
    assert(text::strip_end(slashed, '/') == text::strip_end(h + "/"@ + p, '/'));
}

proof fn lemma_ssh_form(h: Seq<char>, p: Seq<char>)
    requires
        plain_host(h),
        plain_path(p),
    ensures
        remote_path("ssh://git@"@ + h + "/"@ + p + ".git"@) == p,
{
    reveal_strlit("git+");
    reveal_strlit("ssh://git@");
    reveal_strlit("://");
    reveal_strlit("@");
    reveal_strlit("/");
    reveal_strlit(".git");
    let full = h + "/"@ + p + ".git"@;
    lemma_path_of(h, p, full);
    let c = "ssh://git@"@ + h + "/"@ + p + ".git"@;
    assert(c[0] == 's' && c.last() == 't');
    lemma_trimmed_keeps(c);
    assert(!text::has_prefix(c, "git+"@)) by {
        assert(c.take(4)[0] == 's');
    }
    assert(c.skip(3).take(3) =~= "://"@);
    lemma_find_is(c, "://"@, 3);
    let rest = c.skip(6);
    assert(rest.skip(3).take(1) =~= "@"@);
    assert forall|j: int| 0 <= j < 3 implies #[trigger] rest[j] != "@"@[0] by {
        assert(rest[j] == c[j + 6]);
    }
    lemma_find_is(rest, "@"@, 3);
    assert(rest.skip(4) =~= full);
    assert(host_and_path(c) == full);
}

/// The forms of a repository's remote address all give the path of the repository:
/// `git@host:path.git`, `https://host/path` with `.git` or without, the same with `git+`
/// before it, with a user and a slash at the end, and `ssh://git@host/path.git`.
pub proof fn law_remote_forms_collapse(h: Seq<char>, p: Seq<char>, user: Seq<char>)
    requires
        plain_host(h),
        plain_path(p),
        forall|i: int| 0 <= i < user.len() ==> #[trigger] user[i] != '@',
    ensures
        remote_path("git@"@ + h + ":"@ + p + ".git"@) == p,
        remote_path("https://"@ + h + "/"@ + p + ".git"@) == p,
        remote_path("https://"@ + h + "/"@ + p) == p,
        remote_path("ssh://git@"@ + h + "/"@ + p + ".git"@) == p,
        remote_path("https://"@ + user + "@"@ + h + "/"@ + p + "/"@) == p,
        remote_path("git+https://"@ + h + "/"@ + p + ".git"@) == p,
{
    lemma_git_form(h, p);
    lemma_https_forms(h, p);
    lemma_user_form(h, p, user);
    lemma_ssh_form(h, p);
}

/// All clones of a repository share one collection: for roots at the same place inside
/// their clones, with remote addresses that name the same path, the name does not depend
/// on where a clone is.
pub proof fn law_clones_share_a_collection(
    a: Seq<char>,
    b: Seq<char>,
    top_a: Seq<char>,
    top_b: Seq<char>,
    remote_a: Seq<char>,
    remote_b: Seq<char>,
)
    requires
        paths::relative(a, top_a) == paths::relative(b, top_b),
        remote_path(remote_a) == remote_path(remote_b),
        remote_path(remote_a).len() > 0,
    ensures
        collection_for(a, Some(top_a), Some(remote_a)) == collection_for(
            b,
            Some(top_b),
            Some(remote_b),
        ),
        collection_for(a, Some(top_a), Some(remote_a)) == collection_of(
            match paths::relative(a, top_a) {
                Some(rel) => if rel.len() > 0 {
                    remote_path(remote_a) + "/"@ + slashed(rel)
                } else {
                    remote_path(remote_a)
                },
                None => remote_path(remote_a),
            },
        ),
{
}

/// The top of a clone is indexed under the path of the repository, wherever the clone is.
pub proof fn law_clone_tops_share_a_collection(top: Seq<char>, remote: Seq<char>)
    requires
        remote_path(remote).len() > 0,
    ensures
        collection_for(top, Some(top), Some(remote)) == collection_of(remote_path(remote)),
{
    paths::law_relative_to_itself(top);
}

/// Length and the characters behind the dot: enough to tell the extensions with a
/// grammar apart.
spec fn ext_mark(s: Seq<char>) -> (nat, char, char, char) {
    (
        s.len(),
        s[1],
        if s.len() > 2 {
            s[2]
        } else {
            ' '
        },
        if s.len() > 3 {
            s[3]
        } else {
            ' '
        },
    )
}

/// The extensions with a grammar, each with its language, and no other.
#[verifier::rlimit(40)]
#[verifier::spinoff_prover]
pub proof fn law_languages_of_extensions(ext: Seq<char>)
    ensures
        lang_of_ext(".php"@) == Some("php"@),
        lang_of_ext(".go"@) == Some("go"@),
        lang_of_ext(".js"@) == Some("javascript"@),
        lang_of_ext(".jsx"@) == Some("javascript"@),
        lang_of_ext(".mjs"@) == Some("javascript"@),
        lang_of_ext(".cjs"@) == Some("javascript"@),
        lang_of_ext(".ts"@) == Some("typescript"@),
        lang_of_ext(".tsx"@) == Some("tsx"@),
        lang_of_ext(".py"@) == Some("python"@),
        lang_of_ext(".pyi"@) == Some("python"@),
        lang_of_ext(".rs"@) == Some("rust"@),
        lang_of_ext(".sh"@) == Some("bash"@),
        lang_of_ext(".bash"@) == Some("bash"@),
        lang_of_ext(".zsh"@) == Some("bash"@),
        lang_of_ext(".java"@) == Some("java"@),
        lang_of_ext(".c"@) == Some("c"@),
        lang_of_ext(".h"@) == Some("c"@),
        lang_of_ext(".cc"@) == Some("cpp"@),
        lang_of_ext(".cpp"@) == Some("cpp"@),
        lang_of_ext(".hpp"@) == Some("cpp"@),
        lang_of_ext(".cs"@) == Some("csharp"@),
        lang_of_ext(".rb"@) == Some("ruby"@),
        lang_of_ext(ext) is Some ==> seq![
            ".php"@, ".go"@, ".js"@, ".jsx"@, ".mjs"@, ".cjs"@, ".ts"@, ".tsx"@, ".py"@, ".pyi"@, ".rs"@, ".sh"@, ".bash"@, ".zsh"@, ".java"@, ".c"@, ".h"@, ".cc"@, ".cpp"@, ".hpp"@, ".cs"@, ".rb"@,
        ].contains(ext),
{
    reveal_strlit(".php");
    reveal_strlit(".go");
    reveal_strlit(".js");
    reveal_strlit(".jsx");
    reveal_strlit(".mjs");
    reveal_strlit(".cjs");
    reveal_strlit(".ts");
    reveal_strlit(".tsx");
    reveal_strlit(".py");
    reveal_strlit(".pyi");
    reveal_strlit(".rs");
    reveal_strlit(".sh");
    reveal_strlit(".bash");
    reveal_strlit(".zsh");
    reveal_strlit(".java");
    reveal_strlit(".c");
    reveal_strlit(".h");
    reveal_strlit(".cc");
    reveal_strlit(".cpp");
    reveal_strlit(".hpp");
    reveal_strlit(".cs");
    reveal_strlit(".rb");
    assert(ext_mark(".php"@) == (4nat, 'p', 'h', 'p'));
    assert(ext_mark(".go"@) == (3nat, 'g', 'o', ' '));
    assert(ext_mark(".js"@) == (3nat, 'j', 's', ' '));
    assert(ext_mark(".jsx"@) == (4nat, 'j', 's', 'x'));
    assert(ext_mark(".mjs"@) == (4nat, 'm', 'j', 's'));
    assert(ext_mark(".cjs"@) == (4nat, 'c', 'j', 's'));
    assert(ext_mark(".ts"@) == (3nat, 't', 's', ' '));
    assert(ext_mark(".tsx"@) == (4nat, 't', 's', 'x'));
    assert(ext_mark(".py"@) == (3nat, 'p', 'y', ' '));
    assert(ext_mark(".pyi"@) == (4nat, 'p', 'y', 'i'));
    assert(ext_mark(".rs"@) == (3nat, 'r', 's', ' '));
    assert(ext_mark(".sh"@) == (3nat, 's', 'h', ' '));
    assert(ext_mark(".bash"@) == (5nat, 'b', 'a', 's'));
    assert(ext_mark(".zsh"@) == (4nat, 'z', 's', 'h'));
    assert(ext_mark(".java"@) == (5nat, 'j', 'a', 'v'));
    assert(ext_mark(".c"@) == (2nat, 'c', ' ', ' '));
    assert(ext_mark(".h"@) == (2nat, 'h', ' ', ' '));
    assert(ext_mark(".cc"@) == (3nat, 'c', 'c', ' '));
    assert(ext_mark(".cpp"@) == (4nat, 'c', 'p', 'p'));
    assert(ext_mark(".hpp"@) == (4nat, 'h', 'p', 'p'));
    assert(ext_mark(".cs"@) == (3nat, 'c', 's', ' '));
    assert(ext_mark(".rb"@) == (3nat, 'r', 'b', ' '));
    let all = seq![".php"@, ".go"@, ".js"@, ".jsx"@, ".mjs"@, ".cjs"@, ".ts"@, ".tsx"@, ".py"@, ".pyi"@, ".rs"@, ".sh"@, ".bash"@, ".zsh"@, ".java"@, ".c"@, ".h"@, ".cc"@, ".cpp"@, ".hpp"@, ".cs"@, ".rb"@];
    assert(all[0] == ".php"@);
    assert(all[1] == ".go"@);
    assert(all[2] == ".js"@);
    assert(all[3] == ".jsx"@);
    assert(all[4] == ".mjs"@);
    assert(all[5] == ".cjs"@);
    assert(all[6] == ".ts"@);
    assert(all[7] == ".tsx"@);
    assert(all[8] == ".py"@);
    assert(all[9] == ".pyi"@);
    assert(all[10] == ".rs"@);
    assert(all[11] == ".sh"@);
    assert(all[12] == ".bash"@);
    assert(all[13] == ".zsh"@);
    assert(all[14] == ".java"@);
    assert(all[15] == ".c"@);
    assert(all[16] == ".h"@);
    assert(all[17] == ".cc"@);
    assert(all[18] == ".cpp"@);
    assert(all[19] == ".hpp"@);
    assert(all[20] == ".cs"@);
    assert(all[21] == ".rb"@);
}

/// Collections are kept for 30 days, or for as many as the setting says; a setting that
/// is no number counts for nothing.
pub proof fn law_days_are_kept(days: Option<&str>, secs: u64, n: nat)
    requires
        call_ensures(ttl_secs_from, (days,), secs),
    ensures
        days is None ==> secs == 30 * 24 * 60 * 60,
        days is Some && text::number(days.unwrap()@, u64::MAX as nat) is None ==> secs == 30 * 24 * 60
            * 60,
        days is Some && days.unwrap()@ == text::decimal(n) && n * 24 * 60 * 60 <= u64::MAX ==> secs == n
            * 24 * 60 * 60,
        days is Some && days.unwrap()@ == text::decimal(n) && n * 24 * 60 * 60 > u64::MAX && n
            <= u64::MAX ==> secs == u64::MAX,
{
    if n <= u64::MAX {
        text::lemma_number_of_decimal(n, u64::MAX as nat);
    }
}

/// Length and two characters: enough to tell the language keys apart.
spec fn key_mark(s: Seq<char>) -> (nat, char, char) {
    (
        s.len(),
        s[0],
        if s.len() > 2 {
            s[2]
        } else {
            ' '
        },
    )
}

proof fn lemma_keys_differ()
    ensures
        key_mark("php"@) == (3nat, 'p', 'p'),
        key_mark("go"@) == (2nat, 'g', ' '),
        key_mark("javascript"@) == (10nat, 'j', 'v'),
        key_mark("typescript"@) == (10nat, 't', 'p'),
        key_mark("tsx"@) == (3nat, 't', 'x'),
        key_mark("python"@) == (6nat, 'p', 't'),
        key_mark("rust"@) == (4nat, 'r', 's'),
        key_mark("bash"@) == (4nat, 'b', 's'),
        key_mark("java"@) == (4nat, 'j', 'v'),
        key_mark("c"@) == (1nat, 'c', ' '),
        key_mark("cpp"@) == (3nat, 'c', 'p'),
        key_mark("csharp"@) == (6nat, 'c', 'h'),
        key_mark("ruby"@) == (4nat, 'r', 'b'),
{
    reveal_strlit("php");
    reveal_strlit("go");
    reveal_strlit("javascript");
    reveal_strlit("typescript");
    reveal_strlit("tsx");
    reveal_strlit("python");
    reveal_strlit("rust");
    reveal_strlit("bash");
    reveal_strlit("java");
    reveal_strlit("c");
    reveal_strlit("cpp");
    reveal_strlit("csharp");
    reveal_strlit("ruby");
}

/// What becomes a chunk of its own in each language: functions and methods, and the
/// types that are declared whole. A key without a grammar has none.
#[verifier::rlimit(40)]
#[verifier::spinoff_prover]
pub proof fn law_semantic_kinds(lang: Seq<char>)
    ensures
        semantic_kinds("php"@) == seq!["function_definition"@, "method_declaration"@],
        semantic_kinds("go"@) == seq!["function_declaration"@, "method_declaration"@, "type_declaration"@],
        semantic_kinds("javascript"@) == seq!["function_declaration"@, "method_definition"@],
        semantic_kinds("typescript"@) == seq!["function_declaration"@, "method_definition"@, "type_alias_declaration"@, "interface_declaration"@],
        semantic_kinds("tsx"@) == seq!["function_declaration"@, "method_definition"@, "type_alias_declaration"@, "interface_declaration"@],
        semantic_kinds("python"@) == seq!["function_definition"@],
        semantic_kinds("rust"@) == seq!["function_item"@, "struct_item"@, "enum_item"@, "trait_item"@, "macro_definition"@],
        semantic_kinds("bash"@) == seq!["function_definition"@],
        semantic_kinds("java"@) == seq!["method_declaration"@, "constructor_declaration"@, "interface_declaration"@, "enum_declaration"@, "record_declaration"@],
        semantic_kinds("c"@) == seq!["function_definition"@],
        semantic_kinds("cpp"@) == seq!["function_definition"@],
        semantic_kinds("csharp"@) == seq!["method_declaration"@, "constructor_declaration"@, "interface_declaration"@, "enum_declaration"@, "struct_declaration"@],
        semantic_kinds("ruby"@) == seq!["method"@, "singleton_method"@],
        !seq!["php"@, "go"@, "javascript"@, "typescript"@, "tsx"@, "python"@, "rust"@, "bash"@, "java"@, "c"@, "cpp"@, "csharp"@, "ruby"@].contains(lang) ==> semantic_kinds(lang) == Seq::<Seq<char>>::empty(),
{
    lemma_keys_differ();
    let all = seq!["php"@, "go"@, "javascript"@, "typescript"@, "tsx"@, "python"@, "rust"@, "bash"@, "java"@, "c"@, "cpp"@, "csharp"@, "ruby"@];
    assert(all[0] == "php"@);
    assert(all[1] == "go"@);
    assert(all[2] == "javascript"@);
    assert(all[3] == "typescript"@);
    assert(all[4] == "tsx"@);
    assert(all[5] == "python"@);
    assert(all[6] == "rust"@);
    assert(all[7] == "bash"@);
    assert(all[8] == "java"@);
    assert(all[9] == "c"@);
    assert(all[10] == "cpp"@);
    assert(all[11] == "csharp"@);
    assert(all[12] == "ruby"@);
}

/// What gives a chunk its scope in each language: the declarations that hold methods.
#[verifier::rlimit(40)]
#[verifier::spinoff_prover]
pub proof fn law_scope_kinds(lang: Seq<char>)
    ensures
        scope_kinds("php"@) == seq!["class_declaration"@, "interface_declaration"@, "trait_declaration"@, "enum_declaration"@],
        scope_kinds("go"@) == Seq::<Seq<char>>::empty(),
        scope_kinds("javascript"@) == seq!["class_declaration"@],
        scope_kinds("typescript"@) == seq!["class_declaration"@],
        scope_kinds("tsx"@) == seq!["class_declaration"@],
        scope_kinds("python"@) == seq!["class_definition"@],
        scope_kinds("rust"@) == seq!["impl_item"@, "trait_item"@],
        scope_kinds("bash"@) == Seq::<Seq<char>>::empty(),
        scope_kinds("java"@) == seq!["class_declaration"@, "interface_declaration"@, "enum_declaration"@, "record_declaration"@],
        scope_kinds("c"@) == Seq::<Seq<char>>::empty(),
        scope_kinds("cpp"@) == seq!["class_specifier"@, "struct_specifier"@, "namespace_definition"@],
        scope_kinds("csharp"@) == seq!["class_declaration"@, "struct_declaration"@, "interface_declaration"@, "namespace_declaration"@],
        scope_kinds("ruby"@) == seq!["class"@, "module"@],
        !seq!["php"@, "go"@, "javascript"@, "typescript"@, "tsx"@, "python"@, "rust"@, "bash"@, "java"@, "c"@, "cpp"@, "csharp"@, "ruby"@].contains(lang) ==> scope_kinds(lang) == Seq::<Seq<char>>::empty(),
{
    lemma_keys_differ();
    let all = seq!["php"@, "go"@, "javascript"@, "typescript"@, "tsx"@, "python"@, "rust"@, "bash"@, "java"@, "c"@, "cpp"@, "csharp"@, "ruby"@];
    assert(all[0] == "php"@);
    assert(all[1] == "go"@);
    assert(all[2] == "javascript"@);
    assert(all[3] == "typescript"@);
    assert(all[4] == "tsx"@);
    assert(all[5] == "python"@);
    assert(all[6] == "rust"@);
    assert(all[7] == "bash"@);
    assert(all[8] == "java"@);
    assert(all[9] == "c"@);
    assert(all[10] == "cpp"@);
    assert(all[11] == "csharp"@);
    assert(all[12] == "ruby"@);
}

/// Files of up to 512 KiB are indexed, or of up to the bytes that the setting says; a
/// setting of none, or that is no number, counts for nothing.
pub proof fn law_file_size_setting(value: Option<&str>, r: u64, n: nat)
    requires
        call_ensures(max_file_bytes_from, (value,), r),
    ensures
        value is None ==> r == 512 * 1024,
        value is Some && text::number(value.unwrap()@, u64::MAX as nat) is None ==> r == 512 * 1024,
        value is Some && value.unwrap()@ == text::decimal(n) && 0 < n <= u64::MAX ==> r == n,
        value is Some && value.unwrap()@ == text::decimal(0) ==> r == 512 * 1024,
{
    text::lemma_number_of_decimal(0, u64::MAX as nat);
    if n <= u64::MAX {
        text::lemma_number_of_decimal(n, u64::MAX as nat);
    }
}

/// A count is what the setting says, where it is a number and not 0, else the default.
pub proof fn law_count_setting(value: Option<&str>, default: usize, r: usize, n: nat)
    requires
        call_ensures(count_from, (value, default), r),
    ensures
        value is None ==> r == default,
        value is Some && text::number(value.unwrap()@, usize::MAX as nat) is None ==> r == default,
        value is Some && value.unwrap()@ == text::decimal(n) && 0 < n <= usize::MAX ==> r == n,
        value is Some && value.unwrap()@ == text::decimal(0) ==> r == default,
{
    text::lemma_number_of_decimal(0, usize::MAX as nat);
    if n <= usize::MAX {
        text::lemma_number_of_decimal(n, usize::MAX as nat);
    }
}

/// A flag is set by `1` and by `true`, in any mix of cases, and by nothing else.
pub proof fn law_flags(value: Option<&str>, r: bool, dry: bool)
    requires
        call_ensures(flag_enabled, (value,), r),
        call_ensures(gc_dry_run, (value,), dry),
    ensures
        dry == r,
        value is None ==> !r,
        r ==> value is Some && (value.unwrap()@ == seq!['1'] || {
            let s = value.unwrap()@;
            &&& s.len() == 4
            &&& s[0] == 't' || s[0] == 'T'
            &&& s[1] == 'r' || s[1] == 'R'
            &&& s[2] == 'u' || s[2] == 'U'
            &&& s[3] == 'e' || s[3] == 'E'
        }),
        value is Some && value.unwrap()@ == seq!['1'] ==> r,
        value is Some && {
            let s = value.unwrap()@;
            &&& s.len() == 4
            &&& s[0] == 't' || s[0] == 'T'
            &&& s[1] == 'r' || s[1] == 'R'
            &&& s[2] == 'u' || s[2] == 'U'
            &&& s[3] == 'e' || s[3] == 'E'
        } ==> r,
{
    reveal_strlit("1");
    reveal_strlit("true");
    assert("1"@ =~= seq!['1']);
    if value is Some {
        let s = value.unwrap()@;
        let low = text::ascii_lowered(s);
        if low == "true"@ {
            assert(low.len() == s.len());
            assert(low[0] == 't' && low[1] == 'r' && low[2] == 'u' && low[3] == 'e');
        }
        if s.len() == 4 && (s[0] == 't' || s[0] == 'T') && (s[1] == 'r' || s[1] == 'R') && (s[2]
            == 'u' || s[2] == 'U') && (s[3] == 'e' || s[3] == 'E') {
            assert(low =~= "true"@);
        }
    }
}

/// Whether a text can be a word of a slug: of ASCII letters, digits, `.` and `_`.
pub open spec fn slug_word(w: Seq<char>) -> bool {
    w.len() > 0 && forall|i: int|
        0 <= i < w.len() ==> {
            let c = #[trigger] w[i];
            'a' <= c <= 'z' || 'A' <= c <= 'Z' || '0' <= c <= '9' || c == '.' || c == '_'
        }
}

/// Whether a text separates the words of a slug: `-` and what no slug can hold.
pub open spec fn slug_separator(s: Seq<char>) -> bool {
    s.len() > 0 && forall|i: int|
        0 <= i < s.len() ==> {
            let c = #[trigger] s[i];
            !('a' <= c <= 'z' || 'A' <= c <= 'Z' || '0' <= c <= '9' || c == '.' || c == '_')
        }
}

/// The words, in lower case.
pub open spec fn lowered_words(words: Seq<Seq<char>>) -> Seq<Seq<char>> {
    Seq::new(words.len(), |i: int| text::ascii_lowered(words[i]))
}

/// A slug is the words of a text in lower case with a `-` between them, whatever
/// separates them there and stands before and after.
#[verifier::rlimit(40)]
#[verifier::spinoff_prover]
pub proof fn law_slug_joins_words(
    words: Seq<Seq<char>>,
    sep: Seq<char>,
    before: Seq<char>,
    after: Seq<char>,
)
    requires
        words.len() > 0,
        forall|i: int| 0 <= i < words.len() ==> slug_word(#[trigger] words[i]),
        slug_separator(sep),
        before.len() == 0 || slug_separator(before),
        after.len() == 0 || slug_separator(after),
    ensures
        slug(before + text::join(words, sep) + after) == text::join(lowered_words(words), "-"@),
{
    reveal_strlit("-");
    let m = text::join(words, sep);
    let w = text::join(lowered_words(words), "-"@);
    lemma_slug_words(words, sep);
    let raw = before + m + after;
    let a = slug_chars(before);
    let b = slug_chars(after);
    let mid = slug_chars(m);
    assert(slug_chars(raw) =~= a + mid + b);
    assert(forall|i: int| 0 <= i < a.len() ==> #[trigger] a[i] == '-');
    assert(forall|i: int| 0 <= i < b.len() ==> #[trigger] b[i] == '-');
    lemma_single_dashes_after(a, mid);
    lemma_dashes_at_end(a + mid, b);
    lemma_dashes_alone(a);
    let front = if a.len() == 0 {
        Seq::<char>::empty()
    } else {
        seq!['-']
    };
    let back = if b.len() == 0 {
        Seq::<char>::empty()
    } else {
        seq!['-']
    };
    let all = single_dashes(slug_chars(raw));
    assert(all =~= front + w + back);
    let p = text::law_stripped(all, '-');
    let s = text::strip_start(all, '-');
    assert(p.0 == front.len()) by {
        assert(all[front.len() as int] == w[0]);
        if p.0 > front.len() {
            assert(all[front.len() as int] == '-');
        }
        if p.0 < front.len() {
            assert(all[0] == '-');
        }
    }
    assert(s =~= w + back);
    let q = text::law_stripped(s, '-');
    assert(q.1 == w.len()) by {
        assert(s[w.len() - 1] == w.last());
        if q.1 < w.len() {
            assert(s[w.len() - 1] == '-');
        }
        if q.1 > w.len() {
            assert(s[w.len() as int] == '-');
        }
    }
    assert(slug(raw) =~= w);
}

#[verifier::rlimit(40)]
#[verifier::spinoff_prover]
proof fn lemma_slug_words(words: Seq<Seq<char>>, sep: Seq<char>)
    requires
        words.len() > 0,
        forall|i: int| 0 <= i < words.len() ==> slug_word(#[trigger] words[i]),
        slug_separator(sep),
    ensures
        ({
            let m = slug_chars(text::join(words, sep));
            let w = text::join(lowered_words(words), "-"@);
            &&& single_dashes(m) == w
            &&& w.len() > 0
            &&& w[0] != '-'
            &&& w.last() != '-'
            &&& m.len() > 0
            &&& m[0] != '-'
            &&& m.last() != '-'
        }),
    decreases words.len(),
{
    reveal_strlit("-");
    let last = words.last();
    let low = text::ascii_lowered(last);
    assert(slug_word(last));
    assert(slug_chars(last) =~= low);
    assert(forall|i: int| 0 <= i < low.len() ==> #[trigger] low[i] != '-');
    let none = Seq::<char>::empty();
    assert(single_dashes(none) =~= none);
    if words.len() == 1 {
        assert(none + low =~= low);
        lemma_single_dashes_tail(none, low);
    } else {
        let rest = words.drop_last();
        lemma_slug_words(rest, sep);
        let m = slug_chars(text::join(rest, sep));
        let d = slug_chars(sep);
        assert(forall|i: int| 0 <= i < d.len() ==> #[trigger] d[i] == '-');
        assert(slug_chars(text::join(words, sep)) =~= m + d + low);
        lemma_single_dashes_tail(m + d, low);
        lemma_dashes_at_end(m, d);
        assert(lowered_words(words).drop_last() =~= lowered_words(rest));
        assert("-"@ =~= seq!['-']);
        assert(single_dashes(m + d + low) =~= text::join(lowered_words(words), "-"@));
    }
}

proof fn lemma_dashes_at_end(s: Seq<char>, d: Seq<char>)
    requires
        s.len() > 0,
        s.last() != '-',
        forall|i: int| 0 <= i < d.len() ==> #[trigger] d[i] == '-',
    ensures
        single_dashes(s + d) == if d.len() == 0 {
            single_dashes(s)
        } else {
            single_dashes(s).push('-')
        },
    decreases d.len(),
{
    if d.len() == 0 {
        assert(s + d =~= s);
    } else {
        lemma_dashes_at_end(s, d.drop_last());
        assert((s + d).drop_last() =~= s + d.drop_last());
    }
}

proof fn lemma_dashes_alone(d: Seq<char>)
    requires
        forall|i: int| 0 <= i < d.len() ==> #[trigger] d[i] == '-',
    ensures
        d.len() > 0 ==> single_dashes(d) == seq!['-'],
        d.len() == 0 ==> single_dashes(d) == Seq::<char>::empty(),
    decreases d.len(),
{
    if d.len() > 0 {
        lemma_dashes_alone(d.drop_last());
        if d.len() == 1 {
            assert(single_dashes(d) =~= seq!['-']);
        }
    } else {
        assert(d =~= Seq::<char>::empty());
    }
}

proof fn lemma_single_dashes_after(x: Seq<char>, y: Seq<char>)
    requires
        y.len() > 0,
        y[0] != '-',
    ensures
        single_dashes(x + y) == single_dashes(x) + single_dashes(y),
    decreases y.len(),
{
    let s = x + y;
    let t = y.drop_last();
    assert(s.drop_last() =~= x + t);
    if y.len() == 1 {
        assert(x + t =~= x);
        assert(single_dashes(t) =~= Seq::<char>::empty());
        assert(single_dashes(s) =~= single_dashes(x) + single_dashes(y));
    } else {
        lemma_single_dashes_after(x, t);
        assert(s[s.len() - 2] == y[y.len() - 2]);
        assert(single_dashes(s) =~= single_dashes(x) + single_dashes(y));
    }
}

/// A collection is named by the slug of its identity behind `code-`. A name that would
/// be longer than 63 characters keeps the first 49 of the slug and ends with `-` and 8
/// digits of the digest of the whole identity.
pub proof fn law_collection_names(raw: Seq<char>)
    requires
        digest::sha1_digest(encode_utf8(raw)).len() == 20,
    ensures
        "code-"@.len() + slug(raw).len() <= 63 ==> collection_of(raw) == "code-"@ + slug(raw),
        "code-"@.len() + slug(raw).len() > 63 ==> {
            &&& collection_of(raw).len() == 63
            &&& ("code-"@ + slug(raw).take(49) + "-"@).is_prefix_of(collection_of(raw))
            &&& collection_of(raw).skip(55) == digest::sha1_hex(raw).take(8)
        },
{
    reveal_strlit("code-");
    reveal_strlit("-");
    if slug(raw).len() > 58 {
        digest::law_short_hash_starts_the_whole(raw, 4);
        let r = collection_of(raw);
        assert(r.skip(55) =~= digest::short_hash(raw, 4));
        assert(r.take(55) =~= "code-"@ + slug(raw).take(49) + "-"@);
    }
}

/// The manifests of a collection are kept in one of their own, named after it.
pub proof fn law_manifest_collections(collection: &str, r: String)
    requires
        call_ensures(manifest_collection_name, (collection,), r),
    ensures
        slug_form(collection@) && collection@.len() <= 49 && collection@.len() > 0 ==> r@ == "code-"@
            + collection@ + "-manifest"@,
{
    reveal_strlit("-manifest");
    let s = collection@ + "-manifest"@;
    if slug_form(collection@) && collection@.len() <= 49 && collection@.len() > 0 {
        let m = "-manifest"@;
        assert forall|i: int| 0 <= i < s.len() implies slug_output(#[trigger] s[i]) by {
            if i < collection@.len() {
                assert(s[i] == collection@[i]);
            } else {
                assert(s[i] == m[i - collection@.len()]);
            }
        }
        assert forall|i: int| 0 < i < s.len() && #[trigger] s[i] == '-' implies s[i - 1] != '-' by {
            if i < collection@.len() {
                assert(s[i] == collection@[i]);
            } else {
                assert(s[i] == m[i - collection@.len()]);
                assert(i == collection@.len());
                assert(s[i - 1] == collection@.last());
            }
        }
        assert(s.last() == m.last());
        law_slug_keeps_slugs(s);
        assert("code-"@ + s =~= "code-"@ + collection@ + "-manifest"@);
    }
}

/// A directory inside a clone is indexed on its own, under the path of the repository
/// and its own path below the top; the top itself under the path of the repository.
/// Without a working tree, a remote, or a path in the remote there is no such identity.
pub proof fn law_identity_of_a_directory(
    root: Seq<char>,
    top: Seq<char>,
    url: Seq<char>,
    rel: Seq<char>,
)
    ensures
        remote_path(url).len() > 0 ==> git_identity(top, Some(top), Some(url)) == Some(
            remote_path(url),
        ),
        remote_path(url).len() > 0 && paths::relative(root, top) == Some(rel) && rel.len() > 0
            && !rel.contains('\\') ==> git_identity(root, Some(top), Some(url)) == Some(
            remote_path(url) + "/"@ + rel,
        ),
        remote_path(url).len() == 0 ==> git_identity(root, Some(top), Some(url)) is None,
        git_identity(root, None, Some(url)) is None,
        git_identity(root, Some(top), None) is None,
{
    paths::law_relative_to_itself(top);
    if !rel.contains('\\') {
        assert forall|i: int| 0 <= i < rel.len() implies #[trigger] rel[i] != '\\' by {
            assert(rel.contains(rel[i]));
        }
        assert(slashed(rel) =~= rel);
    }
}

/// What git printed counts, without the white space around it, where git succeeded,
/// printed text and there is any left.
pub proof fn law_git_answers(success: bool, text: Seq<char>, bytes: Seq<u8>)
    ensures
        git_answer(success, encode_utf8(text)) == if success && text::trimmed(text).len() > 0 {
            Some(text::trimmed(text))
        } else {
            None
        },
        !valid_utf8(bytes) ==> git_answer(success, bytes) is None,
{
    broadcast use group_utf8_lib;

}

/// Whether a text can stand before the host of a remote address: it is not empty, starts
/// with no white space and not with `git+`, and holds no `:`.
pub open spec fn plain_start(s: Seq<char>) -> bool {
    &&& s.len() > 0
    &&& !text::white_space(s[0])
    &&& !text::has_prefix(s, "git+"@)
    &&& forall|i: int| 0 <= i < s.len() ==> #[trigger] s[i] != ':'
}

/// The scheme of a remote address counts for nothing, whatever it is, and neither does
/// the user.
#[verifier::rlimit(40)]
#[verifier::spinoff_prover]
pub proof fn law_remotes_of_any_scheme(
    scheme: Seq<char>,
    h: Seq<char>,
    p: Seq<char>,
    user: Seq<char>,
)
    requires
        plain_start(scheme),
        plain_host(h),
        plain_path(p),
        forall|i: int| 0 <= i < user.len() ==> #[trigger] user[i] != '@',
    ensures
        remote_path(scheme + "://"@ + (h + "/"@ + p)) == p,
        remote_path(scheme + "://"@ + (h + "/"@ + p + ".git"@)) == p,
        remote_path(scheme + "://"@ + (user + "@"@ + (h + "/"@ + p))) == p,
        remote_path(scheme + "://"@ + (user + "@"@ + (h + "/"@ + p + ".git"@))) == p,
{
    reveal_strlit(".git");
    reveal_strlit("/");
    reveal_strlit("@");
    let plain = h + "/"@ + p;
    let dotted = h + "/"@ + p + ".git"@;
    assert forall|j: int| 0 <= j < plain.len() implies #[trigger] plain[j] != '@' by {
        if j < h.len() {
            assert(plain[j] == h[j]);
        } else if j > h.len() {
            assert(plain[j] == p[j - h.len() - 1]);
        }
    }
    assert forall|j: int| 0 <= j < dotted.len() implies #[trigger] dotted[j] != '@' by {
        if j < plain.len() {
            assert(dotted[j] == plain[j]);
        } else {
            assert(dotted[j] == ".git"@[j - plain.len()]);
        }
    }
    assert(plain.last() == p.last());
    assert(dotted.last() == 't');
    lemma_scheme_form(scheme, plain, user);
    lemma_scheme_form(scheme, dotted, user);
    lemma_path_of(h, p, plain);
    lemma_path_of(h, p, dotted);
}

proof fn lemma_scheme_form(scheme: Seq<char>, full: Seq<char>, user: Seq<char>)
    requires
        plain_start(scheme),
        full.len() > 0,
        !text::white_space(full.last()),
        forall|i: int| 0 <= i < full.len() ==> #[trigger] full[i] != '@',
        forall|i: int| 0 <= i < user.len() ==> #[trigger] user[i] != '@',
    ensures
        ({
            let a = scheme + "://"@ + full;
            let s = without_prefix(text::trimmed(a), "git+"@);
            host_and_path(s) == full
        }),
        ({
            let a = scheme + "://"@ + (user + "@"@ + full);
            let s = without_prefix(text::trimmed(a), "git+"@);
            host_and_path(s) == full
        }),
{
    reveal_strlit("@");
    let b = user + "@"@ + full;
    lemma_after_scheme(scheme, full);
    lemma_after_scheme(scheme, b);
    assert forall|j: int| 0 <= j < full.len() && #[trigger] full[j] == "@"@[0] implies !text::has_prefix(
        full.skip(j),
        "@"@,
    ) by {}
    lemma_find_none(full, "@"@);
    assert(b.skip(user.len() as int).take(1) =~= "@"@);
    assert forall|j: int| 0 <= j < user.len() implies #[trigger] b[j] != "@"@[0] by {
        assert(b[j] == user[j]);
    }
    lemma_find_is(b, "@"@, user.len() as int);
    assert(b.skip(user.len() as int + 1) =~= full);
}

proof fn lemma_after_scheme(scheme: Seq<char>, rest: Seq<char>)
    requires
        plain_start(scheme),
        rest.len() > 0,
        !text::white_space(rest.last()),
    ensures
        ({
            let a = scheme + "://"@ + rest;
            &&& without_prefix(text::trimmed(a), "git+"@) == a
            &&& text::split_once(a, "://"@) == Some((scheme, rest))
        }),
{
    reveal_strlit("://");
    reveal_strlit("git+");
    let a = scheme + "://"@ + rest;
    let n = scheme.len() as int;
    assert(a[0] == scheme[0]);
    assert(a.last() == rest.last());
    lemma_trimmed_keeps(a);
    if text::has_prefix(a, "git+"@) {
        assert(a.take(4) == "git+"@);
        if n >= 4 {
            assert(scheme.take(4) =~= a.take(4));
        } else {
            assert(a[n] == ':');
            assert(a.take(4)[n] == "git+"@[n]);
        }
    }
    assert(a.skip(n).take(3) =~= "://"@);
    assert forall|j: int| 0 <= j < n implies #[trigger] a[j] != "://"@[0] by {
        assert(a[j] == scheme[j]);
    }
    lemma_find_is(a, "://"@, n);
    assert(a.take(n) =~= scheme);
    assert(a.skip(n + 3) =~= rest);
}

/// An address without a scheme is a host, with a user before it or without, and a path
/// behind a `:`.
#[verifier::rlimit(40)]
#[verifier::spinoff_prover]
pub proof fn law_remotes_without_a_scheme(user: Seq<char>, h: Seq<char>, p: Seq<char>)
    requires
        plain_start(user),
        plain_start(h),
        plain_host(h),
        plain_path(p),
    ensures
        remote_path(user + "@"@ + h + ":"@ + p) == p,
        remote_path(h + ":"@ + p) == p,
        remote_path(user + "@"@ + h + ":"@ + p + ".git"@) == p,
        remote_path(h + ":"@ + p + ".git"@) == p,
{
    reveal_strlit(".git");
    reveal_strlit("@");
    reveal_strlit("/");
    reveal_strlit("git+");
    let head = user + "@"@ + h;
    assert forall|j: int| 0 <= j < head.len() implies #[trigger] head[j] != ':' by {
        if j < user.len() {
            assert(head[j] == user[j]);
        } else if j > user.len() {
            assert(head[j] == h[j - user.len() - 1]);
        }
    }
    assert(head[0] == user[0]);
    assert("@"@ =~= seq!['@']);
    text::lemma_rfind_after(user, h, '@');
    assert(head.skip(user.len() as int + 1) =~= h);
    if text::has_prefix(head, "git+"@) {
        if user.len() >= 4 {
            assert(user.take(4) =~= head.take(4));
        } else {
            assert(head.take(4)[user.len() as int] == '@');
            assert("git+"@[user.len() as int] != '@');
        }
    }
    text::lemma_rfind_is_last(h, '@');
    let dotted = p + ".git"@;
    assert(dotted.last() == 't');
    assert(dotted[0] == p[0]);
    lemma_colon_form(head, p);
    lemma_colon_form(head, dotted);
    lemma_colon_form(h, p);
    lemma_colon_form(h, dotted);
    assert(after_last_at(head) == h);
    assert(after_last_at(h) == h);
    lemma_path_of(h, p, h + "/"@ + p);
    lemma_path_of(h, p, h + "/"@ + p + ".git"@);
    assert(h + "/"@ + dotted =~= h + "/"@ + p + ".git"@);
    assert(head + ":"@ + dotted =~= user + "@"@ + h + ":"@ + p + ".git"@);
    assert(h + ":"@ + dotted =~= h + ":"@ + p + ".git"@);
}

proof fn lemma_colon_form(head: Seq<char>, tail: Seq<char>)
    requires
        plain_start(head),
        tail.len() > 0,
        tail[0] != '/',
        !text::white_space(tail.last()),
        forall|i: int| 1 <= i < tail.len() ==> #[trigger] tail[i] != ':',
        tail[0] != ':',
    ensures
        ({
            let a = head + ":"@ + tail;
            let s = without_prefix(text::trimmed(a), "git+"@);
            host_and_path(s) == after_last_at(head) + "/"@ + tail
        }),
{
    reveal_strlit("://");
    reveal_strlit(":");
    reveal_strlit("git+");
    let a = head + ":"@ + tail;
    let n = head.len() as int;
    assert(a[0] == head[0]);
    assert(a.last() == tail.last());
    lemma_trimmed_keeps(a);
    if text::has_prefix(a, "git+"@) {
        assert(a.take(4) == "git+"@);
        if n >= 4 {
            assert(head.take(4) =~= a.take(4));
        } else {
            assert(a[n] == ':');
            assert(a.take(4)[n] == "git+"@[n]);
        }
    }
    assert forall|j: int| 0 <= j < a.len() && #[trigger] a[j] == "://"@[0] implies !text::has_prefix(
        a.skip(j),
        "://"@,
    ) by {
        if j < n {
            assert(a[j] == head[j]);
        } else if j > n {
            assert(a[j] == tail[j - n - 1]);
        }
        assert(j == n);
        if text::has_prefix(a.skip(j), "://"@) {
            assert(a.skip(j).take(3)[1] == tail[0]);
        }
    }
    lemma_find_none(a, "://"@);
    assert(a.skip(n).take(1) =~= ":"@);
    assert forall|j: int| 0 <= j < n implies #[trigger] a[j] != ":"@[0] by {
        assert(a[j] == head[j]);
    }
    lemma_find_is(a, ":"@, n);
    assert(a.take(n) =~= head);
    assert(a.skip(n + 1) =~= tail);
}

/// Sizes: 120 lines in a window, 20 of them shared, 200 in a node that stays whole, 2000
/// records in a request, and 1000 ids in a part of a manifest.
pub proof fn law_sizes()
    ensures
        CHUNK_LINES == 120,
        OVERLAP == 20,
        MAX_SEMANTIC_LINES == 200,
        BATCH == 2000,
        MANIFEST_PART_SIZE == 1000,
{
}

/// Vectors are pooled by their first token where the setting says `cls`, in small letters
/// or in capitals, and else by the mean.
pub proof fn law_pooling_setting(value: Option<&str>, r: PoolingKind)
    requires
        call_ensures(pooling_from, (value,), r),
    ensures
        r == PoolingKind::Cls <==> value is Some && (value.unwrap()@ == seq!['c', 'l', 's']
            || value.unwrap()@ == seq!['C', 'L', 'S']),
{
    reveal_strlit("cls");
    reveal_strlit("CLS");
    assert("cls"@ =~= seq!['c', 'l', 's']);
    assert("CLS"@ =~= seq!['C', 'L', 'S']);
}

/// A root without a git remote and without a name of its own, such as `/`, is indexed as
/// `code-unknown-<hash>`.
pub proof fn law_nameless_roots(root: Seq<char>, top: Option<Seq<char>>, remote: Option<Seq<char>>)
    requires
        git_identity(root, top, remote) is None,
        paths::name_of(root) is None,
        digest::short_hash(root, 4).len() == 8,
    ensures
        collection_for(root, top, remote) == "code-unknown-"@ + digest::short_hash(root, 4),
{
    reveal_strlit("-");
    reveal_strlit("unknown");
    reveal_strlit("code-");
    reveal_strlit("code-unknown-");
    let h = digest::short_hash(root, 4);
    let words = seq!["unknown"@, h];
    lemma_hex_in_slug(digest::sha1_digest(vstd::utf8::encode_utf8(root)).take(4));
    assert(slug_word("unknown"@));
    assert(slug_word(h));
    assert(slug_separator("-"@));
    let none = Seq::<char>::empty();
    law_slug_joins_words(words, "-"@, none, none);
    reveal_with_fuel(text::join, 2);
    assert(words.drop_last() =~= seq!["unknown"@]);
    assert(lowered_words(words).drop_last() =~= seq![text::ascii_lowered("unknown"@)]);
    assert(text::ascii_lowered("unknown"@) =~= "unknown"@);
    assert(text::ascii_lowered(h) =~= h);
    let raw = fallback_identity(root);
    assert(none + text::join(words, "-"@) + none =~= raw);
    assert(text::join(lowered_words(words), "-"@) =~= raw);
    assert("code-"@ + raw =~= "code-unknown-"@ + h);
}

/// A slug is made of the slugs of the parts that separators make: where two parts stand
/// around a separator, their slugs stand around one `-`, and a part without a slug leaves
/// nothing.
pub proof fn law_slug_of_parts(a: Seq<char>, sep: Seq<char>, b: Seq<char>)
    requires
        slug_separator(sep),
    ensures
        slug(a).len() > 0 && slug(b).len() > 0 ==> slug(a + sep + b) == slug(a) + "-"@ + slug(b),
        slug(a).len() == 0 ==> slug(a + sep + b) == slug(b),
        slug(b).len() == 0 ==> slug(a + sep + b) == slug(a),
{
    reveal_strlit("-");
    assert("-"@ =~= seq!['-']);
    let x = slug_chars(a);
    let s = slug_chars(sep);
    let y = slug_chars(b);
    assert(slug_chars(a + sep + b) =~= x + s + y);
    assert(forall|i: int| 0 <= i < s.len() ==> #[trigger] s[i] == '-');
    lemma_dashes_alone(s);
    let (fa, la) = lemma_slug_core(a);
    let (fb, lb) = lemma_slug_core(b);
    let dash = seq!['-'];
    let none = Seq::<char>::empty();
    // With the separator behind it, the first part ends with one `-`.
    lemma_single_dashes_join(x, s);
    let u = single_dashes(x + s);
    assert(dash.drop_first() =~= none);
    if slug(a).len() > 0 {
        assert(u =~= fa + slug(a) + dash);
    } else {
        assert(u =~= dash);
    }
    assert((x + s).last() == '-');
    let all = single_dashes(x + s + y);
    if y.len() == 0 {
        assert(x + s + y =~= x + s);
        assert(single_dashes(y) =~= none);
        assert(slug(b).len() == 0);
        assert(all == u);
    } else {
        lemma_single_dashes_join(x + s, y);
        if slug(b).len() > 0 {
            assert(all =~= u + slug(b) + lb) by {
                if y[0] == '-' {
                    assert((fb + slug(b) + lb).drop_first() =~= slug(b) + lb);
                } else {
                    assert(fb + slug(b) + lb =~= slug(b) + lb);
                }
            }
        } else {
            assert(single_dashes(y) =~= dash);
            assert(all =~= u);
        }
    }
    if slug(a).len() > 0 && slug(b).len() > 0 {
        assert(all =~= fa + (slug(a) + dash + slug(b)) + lb);
        lemma_strip_dashes(fa, slug(a) + dash + slug(b), lb);
    } else if slug(a).len() > 0 {
        assert(all =~= fa + slug(a) + dash);
        lemma_strip_dashes(fa, slug(a), dash);
        if slug(b).len() == 0 {
            assert(slug(a + sep + b) == slug(a));
        }
    } else if slug(b).len() > 0 {
        assert(all =~= dash + slug(b) + lb);
        lemma_strip_dashes(dash, slug(b), lb);
    } else {
        assert(all =~= dash);
        let p = text::law_stripped(all, '-');
        let q = text::law_stripped(text::strip_start(all, '-'), '-');
        assert(slug(a + sep + b).len() == 0);
        assert(slug(a) =~= none && slug(b) =~= none);
        assert(slug(a + sep + b) =~= none);
    }
}

/// A slug is what is left of the characters made fit without a `-` at either end.
proof fn lemma_slug_core(raw: Seq<char>) -> (r: (Seq<char>, Seq<char>))
    ensures
        ({
            let m = slug_chars(raw);
            let d = single_dashes(m);
            &&& slug(raw).len() > 0 ==> d == r.0 + slug(raw) + r.1
            &&& slug(raw).len() > 0 ==> slug(raw)[0] != '-' && slug(raw).last() != '-'
            &&& slug(raw).len() > 0 ==> (r.0 == if m[0] == '-' {
                seq!['-']
            } else {
                Seq::<char>::empty()
            })
            &&& slug(raw).len() > 0 ==> (r.1 == if m.last() == '-' {
                seq!['-']
            } else {
                Seq::<char>::empty()
            })
            &&& slug(raw).len() > 0 ==> m.len() > 0
            &&& slug(raw).len() == 0 && m.len() > 0 ==> d == seq!['-'] && m.last() == '-' && m[0]
                == '-'
            &&& m.len() == 0 ==> d.len() == 0 && slug(raw).len() == 0
        }),
{
    let m = slug_chars(raw);
    let d = single_dashes(m);
    let none = Seq::<char>::empty();
    assert forall|i: int| 0 <= i < m.len() implies slug_output(#[trigger] m[i]) by {}
    lemma_single_dashes(m);
    law_slug_form(raw);
    if m.len() > 0 {
        lemma_first_stays(m);
    }
    let p = text::law_stripped(d, '-');
    let t = text::strip_start(d, '-');
    let q = text::law_stripped(t, '-');
    let s = slug(raw);
    assert(s =~= d.subrange(p.0, p.0 + q.1));
    if m.len() == 0 {
        assert(d =~= none);
        assert(s =~= none);
        (none, none)
    } else {
        // No two `-` stand side by side, so at most one goes at each end.
        if p.0 >= 2 {
            assert(d[1] == '-' && d[0] == '-');
        }
        if t.len() - q.1 >= 2 {
            assert(t[t.len() - 1] == '-' && t[t.len() - 2] == '-');
            assert(d[d.len() - 1] == '-' && d[d.len() - 2] == '-');
        }
        let front = d.take(p.0);
        let back = t.skip(q.1);
        assert(d =~= front + s + back);
        if s.len() > 0 {
            assert(d[p.0] == s[0]);
            assert(d[0] == m[0]);
            assert(front =~= if m[0] == '-' {
                seq!['-']
            } else {
                none
            });
            assert(back =~= if m.last() == '-' {
                seq!['-']
            } else {
                none
            }) by {
                assert(d.last() == m.last());
                if back.len() > 0 {
                    assert(back.last() == d.last());
                    assert(t[q.1] == '-');
                } else {
                    assert(s.last() == d.last());
                }
            }
        } else {
            assert(d =~= front + back);
            assert(q.1 == 0);
            if t.len() > 0 {
                assert(t[0] == '-');
                assert(d[p.0] == '-');
            }
            assert(d =~= front);
            assert(front =~= seq!['-']);
        }
        (front, back)
    }
}

proof fn lemma_first_stays(s: Seq<char>)
    requires
        s.len() > 0,
    ensures
        single_dashes(s).len() > 0,
        single_dashes(s)[0] == s[0],
    decreases s.len(),
{
    if s.len() > 1 {
        lemma_first_stays(s.drop_last());
    } else {
        assert(single_dashes(s.drop_last()) =~= Seq::<char>::empty());
    }
}

proof fn lemma_single_dashes_join(x: Seq<char>, y: Seq<char>)
    requires
        y.len() > 0,
    ensures
        single_dashes(x + y) == single_dashes(x) + if x.len() > 0 && x.last() == '-' && y[0] == '-' {
            single_dashes(y).drop_first()
        } else {
            single_dashes(y)
        },
    decreases y.len(),
{
    let s = x + y;
    let t = y.drop_last();
    assert(s.drop_last() =~= x + t);
    assert(s.last() == y.last());
    if y.len() == 1 {
        assert(x + t =~= x);
        assert(single_dashes(t) =~= Seq::<char>::empty());
        assert(single_dashes(y) =~= y);
        if x.len() > 0 {
            assert(s[s.len() - 2] == x.last());
        }
        assert(y.drop_first() =~= Seq::<char>::empty());
        assert(single_dashes(s) =~= single_dashes(x) + if x.len() > 0 && x.last() == '-' && y[0]
            == '-' {
            single_dashes(y).drop_first()
        } else {
            single_dashes(y)
        });
    } else {
        lemma_single_dashes_join(x, t);
        lemma_first_stays(t);
        assert(s[s.len() - 2] == t.last());
        assert(y[y.len() - 2] == t.last());
        assert(single_dashes(s) =~= single_dashes(x) + if x.len() > 0 && x.last() == '-' && y[0]
            == '-' {
            single_dashes(y).drop_first()
        } else {
            single_dashes(y)
        });
    }
}

proof fn lemma_strip_dashes(front: Seq<char>, core: Seq<char>, back: Seq<char>)
    requires
        core.len() > 0,
        core[0] != '-',
        core.last() != '-',
        front.len() == 0 || front == seq!['-'],
        back.len() == 0 || back == seq!['-'],
    ensures
        text::strip_end(text::strip_start(front + core + back, '-'), '-') == core,
{
    let all = front + core + back;
    let p = text::law_stripped(all, '-');
    assert(p.0 == front.len()) by {
        assert(all[front.len() as int] == core[0]);
        if p.0 > front.len() {
            assert(all[front.len() as int] == '-');
        }
        if p.0 < front.len() {
            assert(all[0] == '-');
        }
    }
    let t = text::strip_start(all, '-');
    assert(t =~= core + back);
    let q = text::law_stripped(t, '-');
    assert(q.1 == core.len()) by {
        assert(t[core.len() - 1] == core.last());
        if q.1 < core.len() {
            assert(t[core.len() - 1] == '-');
        }
        if q.1 > core.len() {
            assert(t[core.len() as int] == '-');
        }
    }
    assert(t.take(core.len() as int) =~= core);
}

/// The address of a repository on disk is its path, without the first `/` and without
/// `.git`.
pub proof fn law_remotes_on_disk(p: Seq<char>)
    requires
        plain_path(p),
    ensures
        remote_path("/"@ + p) == p,
        remote_path("/"@ + p + ".git"@) == p,
{
    reveal_strlit("/");
    reveal_strlit(".git");
    reveal_strlit("://");
    reveal_strlit(":");
    reveal_strlit("git+");
    let bare = "/"@ + p;
    let dotted = "/"@ + p + ".git"@;
    assert forall|j: int| 0 <= j < bare.len() implies #[trigger] bare[j] != ':' by {
        if j > 0 {
            assert(bare[j] == p[j - 1]);
        }
    }
    assert forall|j: int| 0 <= j < dotted.len() implies #[trigger] dotted[j] != ':' by {
        if j < bare.len() {
            assert(dotted[j] == bare[j]);
        } else {
            assert(dotted[j] == ".git"@[j - bare.len()]);
        }
    }
    assert(bare.last() == p.last());
    assert(dotted.last() == 't');
    lemma_trimmed_keeps(bare);
    lemma_trimmed_keeps(dotted);
    assert(!text::has_prefix(bare, "git+"@)) by {
        if text::has_prefix(bare, "git+"@) {
            assert(bare.take(4)[0] == '/');
        }
    }
    assert(!text::has_prefix(dotted, "git+"@)) by {
        if text::has_prefix(dotted, "git+"@) {
            assert(dotted.take(4)[0] == '/');
        }
    }
    lemma_find_none(bare, "://"@);
    lemma_find_none(bare, ":"@);
    lemma_find_none(dotted, "://"@);
    lemma_find_none(dotted, ":"@);
    assert(text::strip_end(bare, '/') == bare);
    assert(text::strip_end(dotted, '/') == dotted);
    assert(!text::has_suffix(bare, ".git"@)) by {
        if text::has_suffix(bare, ".git"@) {
            let tail = bare.skip(bare.len() - 4);
            if p.len() >= 4 {
                assert(tail =~= p.skip(p.len() - 4));
            } else {
                assert(tail[4 - p.len() - 1] == '/');
                assert(".git"@[4 - p.len() - 1] != '/');
            }
        }
    }
    assert(dotted.skip(dotted.len() - 4) =~= ".git"@);
    assert(dotted.take(dotted.len() - 4) =~= bare);
    assert(bare.skip(0).take(1) =~= "/"@);
    lemma_find_is(bare, "/"@, 0);
    assert(bare.skip(1) =~= p);
}

} // verus!
