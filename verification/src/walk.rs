//! Which files of a repository are indexed.
use vstd::prelude::*;

use crate::config::{EXTRA_IGNORE, EXTS, SPECIAL_NAMES};
use crate::{config, paths, splitlines, text};

verus! {

// ---------------------------------------------------------------------------
// The ignore matcher
// ---------------------------------------------------------------------------

/// A matcher for ignore patterns that is being put together.
#[verifier::external_type_specification]
#[verifier::external_body]
pub struct ExGitignoreBuilder(ignore::gitignore::GitignoreBuilder);

/// A matcher for ignore patterns.
#[verifier::external_type_specification]
#[verifier::external_body]
pub struct ExGitignore(ignore::gitignore::Gitignore);

/// Why a matcher could not be built.
#[verifier::external_type_specification]
#[verifier::external_body]
pub struct ExIgnoreError(ignore::Error);

/// The directory that a builder was made for.
pub uninterp spec fn builder_root(b: ignore::gitignore::GitignoreBuilder) -> Seq<char>;

/// The lines that a builder has been given, in order.
pub uninterp spec fn builder_lines(b: ignore::gitignore::GitignoreBuilder) -> Seq<Seq<char>>;

/// The directory that a matcher was made for.
pub uninterp spec fn matcher_root(g: ignore::gitignore::Gitignore) -> Seq<char>;

/// The lines that a matcher was built from, in order.
pub uninterp spec fn matcher_lines(g: ignore::gitignore::Gitignore) -> Seq<Seq<char>>;

/// Whether a matcher can be built for a directory from these lines.
pub uninterp spec fn builds(root: Seq<char>, lines: Seq<Seq<char>>) -> bool;

/// Whether a matcher for `root` that was built from `lines` ignores the path `rel`.
pub uninterp spec fn ignores(
    root: Seq<char>,
    lines: Seq<Seq<char>>,
    rel: Seq<char>,
    is_dir: bool,
) -> bool;

/// `s` without a leading `./`.
pub open spec fn without_dot(s: Seq<char>) -> Seq<char> {
    config::without_prefix(s, seq!['.', '/'])
}

/// Whether the matcher of `root` can look at `rel`: what is left of it without a
/// leading `./`, and without the root and the separator behind it where it starts
/// with the root, must not start with `/`.
pub open spec fn matchable(root: Seq<char>, rel: Seq<char>) -> bool {
    let p = without_dot(rel);
    let r = without_dot(root);
    let left = if r != seq!['.'] && text::has_prefix(p, r) {
        config::without_prefix(p.skip(r.len() as int), seq!['/'])
    } else {
        p
    };
    !text::has_prefix(left, seq!['/'])
}

/// `ignore::gitignore::GitignoreBuilder::new`: a builder for the directory `root`
/// that has been given no line.
#[verifier::external_body]
fn new_builder(root: &str) -> (b: ignore::gitignore::GitignoreBuilder)
    ensures
        builder_root(b) == root@,
        builder_lines(b) == Seq::<Seq<char>>::empty(),
{
    ignore::gitignore::GitignoreBuilder::new(root)
}

/// `ignore::gitignore::GitignoreBuilder::add_line`: one more line has been given. A
/// line that is no pattern is reported and adds none; what it reports is dropped.
#[verifier::external_body]
fn give_line(b: &mut ignore::gitignore::GitignoreBuilder, line: &str)
    ensures
        builder_root(*final(b)) == builder_root(*old(b)),
        builder_lines(*final(b)) == builder_lines(*old(b)).push(line@),
{
    let _ = b.add_line(None, line);
}

/// `ignore::gitignore::GitignoreBuilder::build`: whether it succeeds depends on the
/// directory and the lines alone; without a line it does. The matcher is made for
/// that directory from those lines.
#[verifier::external_body]
fn build(b: &ignore::gitignore::GitignoreBuilder) -> (r: Result<
    ignore::gitignore::Gitignore,
    ignore::Error,
>)
    ensures
        r is Ok <==> builds(builder_root(*b), builder_lines(*b)),
        builder_lines(*b).len() == 0 ==> r is Ok,
        r is Ok ==> matcher_root(r->Ok_0) == builder_root(*b),
        r is Ok ==> matcher_lines(r->Ok_0) == builder_lines(*b),
{
    b.build()
}

/// `ignore::gitignore::Gitignore::matched_path_or_any_parents`, which panics on a
/// path that is not `matchable`, and `ignore::Match::is_ignore` of what it returns:
/// whether the last pattern that matches the path, or else the nearest of its
/// parents that one matches, ignores it. This depends on the directory, the lines
/// and the path alone; without a line nothing is ignored.
#[verifier::external_body]
fn is_match(g: &ignore::gitignore::Gitignore, rel: &str, is_dir: bool) -> (r: bool)
    requires
        matcher_lines(*g).len() == 0 || matchable(matcher_root(*g), rel@),
    ensures
        r == ignores(matcher_root(*g), matcher_lines(*g), rel@, is_dir),
        matcher_lines(*g).len() == 0 ==> !r,
{
    g.matched_path_or_any_parents(rel, is_dir).is_ignore()
}

/// The ignore patterns of a repository.
pub struct Ignore {
    root: String,
    matcher: ignore::gitignore::Gitignore,
    /// Whether there is no pattern line.
    empty: bool,
}

impl Ignore {
    /// The matcher is made for the root.
    #[verifier::type_invariant]
    spec fn wf(self) -> bool {
        &&& matcher_root(self.matcher) == self.root@
        &&& self.empty == (matcher_lines(self.matcher).len() == 0)
    }

    /// The root of the repository.
    pub closed spec fn root(self) -> Seq<char> {
        self.root@
    }

    /// The pattern lines, in order.
    pub closed spec fn lines(self) -> Seq<Seq<char>> {
        matcher_lines(self.matcher)
    }

    /// Whether the patterns can be asked about the path `rel`.
    pub open spec fn accepts(self, rel: Seq<char>) -> bool {
        self.lines().len() == 0 || matchable(self.root(), rel)
    }

    /// Whether the file or directory `rel` is ignored.
    pub open spec fn ignored(self, rel: Seq<char>, is_dir: bool) -> bool {
        ignores(self.root(), self.lines(), rel, is_dir)
    }

    /// Whether the file `rel`, a path relative to the root, is ignored.
    pub fn is_ignored(&self, rel: &str) -> (r: bool)
        requires
            self.accepts(rel@),
        ensures
            r == self.ignored(rel@, false),
    {
        proof {
            use_type_invariant(self);
        }
        is_match(&self.matcher, rel, false)
    }

    /// Whether the directory `rel`, a path relative to the root, is ignored. Patterns
    /// that match only directories count here.
    pub fn is_ignored_dir(&self, rel: &str) -> (r: bool)
        requires
            self.accepts(rel@),
        ensures
            r == self.ignored(rel@, true),
    {
        proof {
            use_type_invariant(self);
        }
        is_match(&self.matcher, rel, true)
    }

    /// Whether the patterns can be asked about the path `rel`.
    pub fn can_match(&self, rel: &str) -> (r: bool)
        ensures
            r == self.accepts(rel@),
    {
        proof {
            use_type_invariant(self);
        }
        self.empty || is_matchable(self.root.as_str(), rel)
    }
}

/// Whether the patterns can be asked about the path as one of the root: always where
/// both roots are absolute.
pub open spec fn askable(root: Seq<char>, patterns: Ignore, path: Seq<char>) -> bool {
    ||| paths::absolute(root) && paths::absolute(patterns.root())
    ||| match paths::relative(path, root) {
        Some(rel) => patterns.accepts(rel),
        None => true,
    }
}

/// A path that lies in an absolute root can be matched against the patterns of any
/// absolute root.
pub proof fn law_relative_paths_match(path: Seq<char>, base: Seq<char>, root: Seq<char>)
    requires
        paths::within(path, base),
        paths::absolute(base),
        paths::absolute(root),
    ensures
        matchable(root, paths::relative(path, base)->0),
{
    let rel = paths::relative(path, base)->0;
    assert(paths::components(base).len() > 0);
    paths::law_relative_components(path, base);
    let p = without_dot(rel);
    let r = without_dot(root);
    assert(p == rel);
    assert(root.len() >= 2 ==> root.take(2)[0] == '/');
    assert(r == root);
    if text::has_prefix(p, r) {
        assert(p.take(r.len() as int)[0] == p[0]);
    }
    if text::has_prefix(p, seq!['/']) {
        assert(p.take(1)[0] == p[0]);
    }
}

/// Where the patterns can be asked about a path, they accept it.
pub proof fn lemma_askable(root: Seq<char>, patterns: Ignore, path: Seq<char>)
    requires
        askable(root, patterns, path),
    ensures
        match paths::relative(path, root) {
            Some(rel) => patterns.accepts(rel),
            None => true,
        },
{
    if paths::within(path, root) && paths::absolute(root) && paths::absolute(patterns.root()) {
        law_relative_paths_match(path, root, patterns.root());
    }
}

fn drop_prefix(s: &str, pat: &str) -> (r: String)
    ensures
        r@ == config::without_prefix(s@, pat@),
{
    if text::starts_with(s, pat) {
        let v = text::chars_of(s);
        let p = text::chars_of(pat);
        let r = text::text_of(&v, p.len(), v.len());
        proof {
            assert(r@ =~= s@.skip(pat@.len() as int));
        }
        r
    } else {
        s.to_string()
    }
}

fn is_matchable(root: &str, rel: &str) -> (r: bool)
    ensures
        r == matchable(root@, rel@),
{
    proof {
        reveal_strlit("./");
        reveal_strlit("/");
        reveal_strlit(".");
        assert("./"@ == seq!['.', '/']);
        assert("/"@ == seq!['/']);
        assert("."@ == seq!['.']);
    }
    let p = drop_prefix(rel, "./");
    let r = drop_prefix(root, "./");
    let left = if !text::str_eq(r.as_str(), ".") && text::starts_with(p.as_str(), r.as_str()) {
        let v = text::chars_of(p.as_str());
        let w = text::chars_of(r.as_str());
        let rest = text::text_of(&v, w.len(), v.len());
        proof {
            assert(rest@ =~= p@.skip(r@.len() as int));
        }
        drop_prefix(rest.as_str(), "/")
    } else {
        p
    };
    !text::starts_with(left.as_str(), "/")
}

/// The pattern lines of a repository: those that hold everywhere, and those of its
/// own `.gitignore`.
pub open spec fn pattern_lines(gitignore: Option<Seq<char>>) -> Seq<Seq<char>> {
    text::slices(EXTRA_IGNORE@) + match gitignore {
        Some(s) => splitlines::text_lines(s),
        None => Seq::empty(),
    }
}

/// The ignore patterns of the repository `root`, whose own `.gitignore` holds the
/// text `gitignore`. Where no matcher can be built, nothing is ignored.
pub fn load_ignore(root: &str, gitignore: Option<&str>) -> (r: Ignore)
    ensures
        r.root() == root@,
        r.lines() == if builds(root@, pattern_lines(config::opt_slice(gitignore))) {
            pattern_lines(config::opt_slice(gitignore))
        } else {
            Seq::empty()
        },
{
    let mut builder = new_builder(root);
    let ghost fixed = text::slices(EXTRA_IGNORE@);
    let mut i: usize = 0;
    proof {
        assert(fixed.take(0) =~= Seq::<Seq<char>>::empty());
    }
    while i < EXTRA_IGNORE.len()
        invariant
            i <= EXTRA_IGNORE@.len(),
            fixed == text::slices(EXTRA_IGNORE@),
            builder_root(builder) == root@,
            builder_lines(builder) == fixed.take(i as int),
        decreases EXTRA_IGNORE@.len() - i,
    {
        give_line(&mut builder, EXTRA_IGNORE[i]);
        proof {
            assert(fixed.take(i + 1) =~= fixed.take(i as int).push(fixed[i as int]));
        }
        i = i + 1;
    }
    proof {
        assert(fixed.take(EXTRA_IGNORE@.len() as int) =~= fixed);
    }
    match gitignore {
        Some(content) => {
            let lines = splitlines::lines_of(content);
            let ghost own = text::slices(lines@);
            let mut k: usize = 0;
            proof {
                assert(fixed + own.take(0) =~= fixed);
            }
            while k < lines.len()
                invariant
                    k <= lines@.len(),
                    own == text::slices(lines@),
                    builder_root(builder) == root@,
                    builder_lines(builder) == fixed + own.take(k as int),
                decreases lines@.len() - k,
            {
                give_line(&mut builder, lines[k]);
                proof {
                    assert(fixed + own.take(k + 1) =~= (fixed + own.take(k as int)).push(
                        own[k as int],
                    ));
                }
                k = k + 1;
            }
            proof {
                assert(own.take(lines@.len() as int) =~= own);
            }
        },
        None => {
            proof {
                assert(fixed + Seq::<Seq<char>>::empty() =~= fixed);
            }
        },
    }
    match build(&builder) {
        Ok(matcher) => {
            proof {
                assert(fixed.len() == 29);
            }
            Ignore { root: root.to_string(), matcher, empty: false }
        },
        Err(_) => {
            let none = new_builder(root);
            Ignore { root: root.to_string(), matcher: build(&none).unwrap(), empty: true }
        },
    }
}

// ---------------------------------------------------------------------------
// Selection
// ---------------------------------------------------------------------------

/// Whether a file is indexed by its name: for its extension, which comes in lower
/// case and with its dot, or for the name itself.
pub open spec fn selected(ext: Seq<char>, name: Seq<char>) -> bool {
    text::listed(EXTS@, ext) || text::listed(SPECIAL_NAMES@, name)
}

/// Whether a file is indexed by its name: for its extension, which comes in lower
/// case and with its dot, or for the name itself.
pub fn is_selected(ext: &str, name: &str) -> (r: bool)
    ensures
        r == selected(ext@, name@),
{
    text::contains_text(EXTS.as_slice(), ext) || text::contains_text(SPECIAL_NAMES.as_slice(), name)
}

/// The extension of a file name in lower case and with its dot; empty where there
/// is none.
pub open spec fn dotted_extension(name: Seq<char>) -> Seq<char> {
    match paths::extension_of(name) {
        Some(ext) => "."@ + text::lowercase(ext),
        None => Seq::empty(),
    }
}

/// Whether the file at `path` is of a kind that is indexed.
pub open spec fn indexable(path: Seq<char>) -> bool {
    match paths::name_of(path) {
        Some(name) => selected(dotted_extension(name), name),
        None => false,
    }
}

/// Whether the file at `path` is of a kind that is indexed.
pub fn is_indexable(path: &str) -> (r: bool)
    ensures
        r == indexable(path@),
{
    let name = match paths::file_name(path) {
        Some(n) => n,
        None => {
            return false;
        },
    };
    let ext = match paths::extension(path) {
        Some(e) => {
            let lower = text::lowercase_text(e.as_str());
            let mut dotted = ".".to_string();
            dotted.append(lower.as_str());
            dotted
        },
        None => String::new(),
    };
    is_selected(ext.as_str(), name.as_str())
}

/// Whether the file at `path` in the repository `root` is one to index, its size
/// aside: of the right kind and not ignored.
pub open spec fn wanted(root: Seq<char>, patterns: Ignore, path: Seq<char>) -> bool {
    match paths::relative(path, root) {
        Some(rel) => indexable(path) && !patterns.ignored(rel, false),
        None => false,
    }
}

/// An entry of a directory tree.
#[derive(Debug, Clone)]
pub struct Entry {
    pub path: String,
    /// Whether it is a regular file.
    pub is_file: bool,
    /// Its size in bytes, where it is known.
    pub len: Option<u64>,
}

/// Whether a file of the right kind is taken: it is not ignored, and its size is
/// known and at most `max`.
pub open spec fn taken(ignored: bool, len: Option<u64>, max: u64) -> bool {
    !ignored && match len {
        Some(n) => n <= max,
        None => false,
    }
}

/// Whether a file of the right kind is taken.
pub fn takes_file(ignored: bool, len: Option<u64>, max: u64) -> (r: bool)
    ensures
        r == taken(ignored, len, max),
{
    match len {
        Some(n) => !ignored && n <= max,
        None => false,
    }
}

/// Whether an entry is a file to index: of the right kind, in the root, not ignored,
/// and not too large.
pub open spec fn entry_wanted(root: Seq<char>, patterns: Ignore, e: Entry, max: u64) -> bool {
    e.is_file && indexable(e.path@) && match paths::relative(e.path@, root) {
        Some(rel) => taken(patterns.ignored(rel, false), e.len, max),
        None => false,
    }
}

/// The paths of the files to index among the first `n` entries, in order.
pub open spec fn wanted_paths(
    root: Seq<char>,
    patterns: Ignore,
    entries: Seq<Entry>,
    max: u64,
    n: int,
) -> Seq<Seq<char>>
    decreases n,
{
    if n <= 0 {
        Seq::empty()
    } else if entry_wanted(root, patterns, entries[n - 1], max) {
        wanted_paths(root, patterns, entries, max, n - 1).push(entries[n - 1].path@)
    } else {
        wanted_paths(root, patterns, entries, max, n - 1)
    }
}

/// The paths of the files to index among the entries of the repository `root`, in
/// order.
pub fn iter_files(root: &str, patterns: &Ignore, entries: &Vec<Entry>, max: u64) -> (r: Vec<String>)
    requires
        forall|i: int|
            0 <= i < entries@.len() && (#[trigger] entries@[i]).is_file && indexable(
                entries@[i].path@,
            ) ==> askable(root@, *patterns, entries@[i].path@),
    ensures
        text::texts(r@) == wanted_paths(root@, *patterns, entries@, max, entries@.len() as int),
{
    let mut r: Vec<String> = Vec::new();
    let mut i: usize = 0;
    proof {
        assert(text::texts(r@) =~= Seq::<Seq<char>>::empty());
    }
    while i < entries.len()
        invariant
            i <= entries@.len(),
            text::texts(r@) == wanted_paths(root@, *patterns, entries@, max, i as int),
            forall|i: int|
                0 <= i < entries@.len() && (#[trigger] entries@[i]).is_file && indexable(
                    entries@[i].path@,
                ) ==> askable(root@, *patterns, entries@[i].path@),
        decreases entries@.len() - i,
    {
        let e = &entries[i];
        let ghost before = r@;
        if e.is_file && is_indexable(e.path.as_str()) {
            proof {
                lemma_askable(root@, *patterns, e.path@);
            }
            match paths::strip_prefix(e.path.as_str(), root) {
                Some(rel) => {
                    if takes_file(patterns.is_ignored(rel.as_str()), e.len, max) {
                        r.push(e.path.clone());
                        proof {
                            assert(text::texts(r@) =~= text::texts(before).push(e.path@));
                        }
                    }
                },
                None => {},
            }
        }
        i = i + 1;
    }
    r
}

/// Whether an entry is a directory to watch: one that is not ignored. The root and
/// what lies outside it are never ignored.
pub open spec fn dir_kept(root: Seq<char>, patterns: Ignore, path: Seq<char>, is_dir: bool) -> bool {
    is_dir && match paths::relative(path, root) {
        Some(rel) => rel.len() == 0 || !patterns.ignored(rel, true),
        None => true,
    }
}

/// Whether an entry is a directory to watch, and to look for more below.
pub fn keep_dir(path: &str, is_dir: bool, root: &str, patterns: &Ignore) -> (r: bool)
    requires
        is_dir && paths::relative(path@, root@) != Some(Seq::<char>::empty()) ==> askable(
            root@,
            *patterns,
            path@,
        ),
    ensures
        r == dir_kept(root@, *patterns, path@, is_dir),
{
    if !is_dir {
        return false;
    }
    match paths::strip_prefix(path, root) {
        Some(rel) => {
            if rel.as_str().is_empty() {
                true
            } else {
                proof {
                    lemma_askable(root@, *patterns, path@);
                }
                !patterns.is_ignored_dir(rel.as_str())
            }
        },
        None => true,
    }
}

/// An entry met on a walk through a directory tree that takes each directory before
/// what is in it.
#[derive(Debug, Clone)]
pub struct WalkEntry {
    pub path: String,
    pub is_dir: bool,
    /// How far it lies below the start of the walk.
    pub depth: usize,
}

/// Whether the entry `j` is a directory that the entry `i` lies in: it was met
/// before, and nothing as high was met in between.
pub open spec fn above(entries: Seq<WalkEntry>, j: int, i: int) -> bool {
    &&& 0 <= j < i < entries.len()
    &&& entries[j].depth < entries[i].depth
    &&& open_at(entries, j, i)
}

/// Whether everything met after the entry `j` and before the position `i` is deeper
/// than `j`.
pub open spec fn open_at(entries: Seq<WalkEntry>, j: int, i: int) -> bool {
    forall|k: int| j < k < i ==> (#[trigger] entries[k]).depth > entries[j].depth
}

/// Whether the directories that the entry lies in are all to be watched.
pub open spec fn reached(
    root: Seq<char>,
    patterns: Ignore,
    entries: Seq<WalkEntry>,
    i: int,
) -> bool {
    forall|j: int| #[trigger]
        above(entries, j, i) ==> dir_kept(root, patterns, entries[j].path@, entries[j].is_dir)
}

/// Whether the entry is a directory to watch: it is not ignored, nor is one that it
/// lies in.
pub open spec fn watched(
    root: Seq<char>,
    patterns: Ignore,
    entries: Seq<WalkEntry>,
    i: int,
) -> bool {
    dir_kept(root, patterns, entries[i].path@, entries[i].is_dir) && reached(
        root,
        patterns,
        entries,
        i,
    )
}

/// The paths of the directories to watch among the first `n` entries, in order.
pub open spec fn watched_below(
    root: Seq<char>,
    patterns: Ignore,
    entries: Seq<WalkEntry>,
    n: int,
) -> Seq<Seq<char>>
    decreases n,
{
    if n <= 0 {
        Seq::empty()
    } else if watched(root, patterns, entries, n - 1) {
        watched_below(root, patterns, entries, n - 1).push(entries[n - 1].path@)
    } else {
        watched_below(root, patterns, entries, n - 1)
    }
}

/// The directories to watch among the entries of a walk, which may start at the root
/// or below it. What lies in an ignored directory is never watched.
pub fn watch_dirs_under(entries: &Vec<WalkEntry>, root: &str, patterns: &Ignore) -> (r: Vec<String>)
    requires
        forall|i: int|
            0 <= i < entries@.len() && (#[trigger] entries@[i]).is_dir && reached(
                root@,
                *patterns,
                entries@,
                i,
            ) ==> (paths::relative(entries@[i].path@, root@) != Some(Seq::<char>::empty())
                ==> askable(root@, *patterns, entries@[i].path@)),
    ensures
        text::texts(r@) == watched_below(root@, *patterns, entries@, entries@.len() as int),
{
    let mut r: Vec<String> = Vec::new();
    // The depth of the entry that the walk is in and that is not watched.
    let mut pruned: Option<usize> = None;
    let mut i: usize = 0;
    proof {
        assert(text::texts(r@) =~= watched_below(root@, *patterns, entries@, 0));
    }
    while i < entries.len()
        invariant
            i <= entries@.len(),
            forall|i: int|
                0 <= i < entries@.len() && (#[trigger] entries@[i]).is_dir && reached(
                    root@,
                    *patterns,
                    entries@,
                    i,
                ) ==> (paths::relative(entries@[i].path@, root@) != Some(Seq::<char>::empty())
                    ==> askable(root@, *patterns, entries@[i].path@)),
            text::texts(r@) == watched_below(root@, *patterns, entries@, i as int),
            pruned matches Some(d) ==> exists|j: int|
                0 <= j < i && #[trigger] open_at(entries@, j, i as int) && entries@[j].depth == d
                    && !dir_kept(root@, *patterns, entries@[j].path@, entries@[j].is_dir),
            forall|j: int|
                0 <= j < i && #[trigger] open_at(entries@, j, i as int) && !dir_kept(
                    root@,
                    *patterns,
                    entries@[j].path@,
                    entries@[j].is_dir,
                ) ==> pruned is Some && pruned->0 <= entries@[j].depth,
        decreases entries@.len() - i,
    {
        let e = &entries[i];
        let below = match pruned {
            Some(d) => e.depth > d,
            None => false,
        };
        let ghost before = r@;
        proof {
            assert forall|j: int|
                0 <= j < i && #[trigger] open_at(entries@, j, i + 1) implies open_at(
                entries@,
                j,
                i as int,
            ) && entries@[i as int].depth > entries@[j].depth by {}
        }
        if below {
            proof {
                let j = choose|j: int|
                    0 <= j < i && #[trigger] open_at(entries@, j, i as int) && entries@[j].depth
                        == pruned->0 && !dir_kept(
                        root@,
                        *patterns,
                        entries@[j].path@,
                        entries@[j].is_dir,
                    );
                assert(above(entries@, j, i as int));
                assert(open_at(entries@, j, i + 1));
            }
        } else {
            proof {
                assert(reached(root@, *patterns, entries@, i as int)) by {
                    assert forall|j: int| #[trigger] above(entries@, j, i as int) implies dir_kept(
                        root@,
                        *patterns,
                        entries@[j].path@,
                        entries@[j].is_dir,
                    ) by {
                        assert(open_at(entries@, j, i as int));
                    }
                }
            }
            if keep_dir(e.path.as_str(), e.is_dir, root, patterns) {
                r.push(e.path.clone());
                pruned = None;
                proof {
                    assert(text::texts(r@) =~= text::texts(before).push(e.path@));
                }
            } else {
                pruned = Some(e.depth);
                proof {
                    assert(open_at(entries@, i as int, i + 1));
                }
            }
        }
        i = i + 1;
    }
    r
}

// ---------------------------------------------------------------------------
// Laws
// ---------------------------------------------------------------------------

/// What a scan indexes is what live updates look at, but for the size.
pub proof fn law_scan_takes_what_is_watched(
    root: Seq<char>,
    patterns: Ignore,
    e: Entry,
    max: u64,
)
    ensures
        entry_wanted(root, patterns, e, max) <==> e.is_file && wanted(root, patterns, e.path@)
            && taken(false, e.len, max),
{
}

/// The extensions that are indexed.
pub proof fn law_indexed_extensions()
    ensures
        text::slices(EXTS@) == seq![
            ".py"@, ".pyi"@, ".ts"@, ".tsx"@, ".js"@, ".jsx"@, ".mjs"@, ".cjs"@, ".php"@, ".go"@,
            ".rs"@, ".java"@, ".kt"@, ".swift"@, ".c"@, ".h"@, ".cc"@, ".cpp"@, ".hpp"@, ".rb"@,
            ".ex"@, ".exs"@, ".cs"@, ".nix"@, ".sql"@, ".sh"@, ".bash"@, ".zsh"@, ".md"@,
            ".mdx"@, ".rst"@, ".toml"@, ".yaml"@, ".yml"@, ".json"@, ".jsonc"@, ".vue"@,
            ".svelte"@, ".html"@, ".css"@, ".scss"@,
        ],
        forall|i: int| 0 <= i < EXTS@.len() ==> (#[trigger] EXTS@[i])@.len() > 1,
{
    reveal_strlit(".py");
    reveal_strlit(".pyi");
    reveal_strlit(".ts");
    reveal_strlit(".tsx");
    reveal_strlit(".js");
    reveal_strlit(".jsx");
    reveal_strlit(".mjs");
    reveal_strlit(".cjs");
    reveal_strlit(".php");
    reveal_strlit(".go");
    reveal_strlit(".rs");
    reveal_strlit(".java");
    reveal_strlit(".kt");
    reveal_strlit(".swift");
    reveal_strlit(".c");
    reveal_strlit(".h");
    reveal_strlit(".cc");
    reveal_strlit(".cpp");
    reveal_strlit(".hpp");
    reveal_strlit(".rb");
    reveal_strlit(".ex");
    reveal_strlit(".exs");
    reveal_strlit(".cs");
    reveal_strlit(".nix");
    reveal_strlit(".sql");
    reveal_strlit(".sh");
    reveal_strlit(".bash");
    reveal_strlit(".zsh");
    reveal_strlit(".md");
    reveal_strlit(".mdx");
    reveal_strlit(".rst");
    reveal_strlit(".toml");
    reveal_strlit(".yaml");
    reveal_strlit(".yml");
    reveal_strlit(".json");
    reveal_strlit(".jsonc");
    reveal_strlit(".vue");
    reveal_strlit(".svelte");
    reveal_strlit(".html");
    reveal_strlit(".css");
    reveal_strlit(".scss");
    assert(text::slices(EXTS@) =~= seq![
        ".py"@, ".pyi"@, ".ts"@, ".tsx"@, ".js"@, ".jsx"@, ".mjs"@, ".cjs"@, ".php"@, ".go"@,
        ".rs"@, ".java"@, ".kt"@, ".swift"@, ".c"@, ".h"@, ".cc"@, ".cpp"@, ".hpp"@, ".rb"@,
        ".ex"@, ".exs"@, ".cs"@, ".nix"@, ".sql"@, ".sh"@, ".bash"@, ".zsh"@, ".md"@, ".mdx"@,
        ".rst"@, ".toml"@, ".yaml"@, ".yml"@, ".json"@, ".jsonc"@, ".vue"@, ".svelte"@, ".html"@,
        ".css"@, ".scss"@,
    ]);
}

/// The file names that are indexed whatever their extension, and the patterns that are
/// ignored in every repository, before those of its own.
pub proof fn law_names_and_patterns_that_hold_everywhere(own: Seq<char>)
    ensures
        text::slices(SPECIAL_NAMES@) == seq![
            "Makefile"@, "Dockerfile"@, "Justfile"@, ".envrc"@,
        ],
        pattern_lines(None) == seq![
            ".git/"@, ".chroma/"@, ".direnv/"@, ".venv/"@, "venv/"@, "node_modules/"@,
            "vendor/"@, "dist/"@, "build/"@, "out/"@, "target/"@, "result"@, ".next/"@,
            ".nuxt/"@, ".cache/"@, ".parcel-cache/"@, "__pycache__/"@, "*.pyc"@, "*.min.js"@,
            "*.min.css"@, "*.map"@, "storage/"@, "bootstrap/cache/"@, "*.lock"@,
            "package-lock.json"@, "composer.lock"@, "uv.lock"@, "yarn.lock"@, "pnpm-lock.yaml"@,
        ],
        pattern_lines(Some(own)) == pattern_lines(None) + splitlines::text_lines(own),
{
    assert(text::slices(SPECIAL_NAMES@) =~= seq![
        "Makefile"@, "Dockerfile"@, "Justfile"@, ".envrc"@,
    ]);
    assert(pattern_lines(None) =~= seq![
        ".git/"@, ".chroma/"@, ".direnv/"@, ".venv/"@, "venv/"@, "node_modules/"@, "vendor/"@,
        "dist/"@, "build/"@, "out/"@, "target/"@, "result"@, ".next/"@, ".nuxt/"@, ".cache/"@,
        ".parcel-cache/"@, "__pycache__/"@, "*.pyc"@, "*.min.js"@, "*.min.css"@, "*.map"@,
        "storage/"@, "bootstrap/cache/"@, "*.lock"@, "package-lock.json"@, "composer.lock"@,
        "uv.lock"@, "yarn.lock"@, "pnpm-lock.yaml"@,
    ]);
    assert(text::slices(EXTRA_IGNORE@) + Seq::<Seq<char>>::empty() =~= text::slices(
        EXTRA_IGNORE@,
    ));
}

/// Whether `ext` is the extension of the file name: it follows the last dot, which is not
/// the first character.
pub open spec fn ends_with_extension(name: Seq<char>, ext: Seq<char>) -> bool {
    &&& ext.len() + 1 < name.len()
    &&& name[name.len() - ext.len() - 1] == '.'
    &&& name.skip(name.len() - ext.len()) == ext
    &&& !ext.contains('.')
}

/// A file is indexed where its name ends in a listed extension, in whatever case, or is
/// one of the listed names, and no other is.
pub proof fn law_files_of_listed_kinds_are_indexed(path: Seq<char>)
    ensures
        indexable(path) <==> ({
            let c = paths::components(path);
            &&& c.len() > 0
            &&& c.last() != seq!['/'] && c.last() != seq!['.'] && c.last() != seq!['.', '.']
            &&& {
                ||| exists|i: int, ext: Seq<char>|
                    0 <= i < EXTS@.len() && ends_with_extension(c.last(), ext) && (
                    #[trigger] EXTS@[i])@ == seq!['.'] + #[trigger] text::lowercase(ext)
                ||| exists|i: int|
                    0 <= i < SPECIAL_NAMES@.len() && (#[trigger] SPECIAL_NAMES@[i])@ == c.last()
            }
        }),
{
    law_indexed_extensions();
    reveal_strlit(".");
    assert("."@ =~= seq!['.']);
    let c = paths::components(path);
    if c.len() > 0 && paths::normal(c.last()) {
        let name = c.last();
        let by_ext = exists|i: int, ext: Seq<char>|
            0 <= i < EXTS@.len() && ends_with_extension(name, ext) && (#[trigger] EXTS@[i])@
                == seq!['.'] + #[trigger] text::lowercase(ext);
        if text::listed(EXTS@, dotted_extension(name)) {
            let i = choose|i: int|
                0 <= i < EXTS@.len() && (#[trigger] EXTS@[i])@ == dotted_extension(name);
            assert(EXTS@[i]@.len() > 1);
            let ext = paths::extension_of(name)->0;
            paths::lemma_extension(name);
            assert(ends_with_extension(name, ext));
            assert(EXTS@[i]@ == seq!['.'] + text::lowercase(ext));
            assert(by_ext);
        }
        if by_ext {
            let (i, ext) = choose|i: int, ext: Seq<char>|
                0 <= i < EXTS@.len() && ends_with_extension(name, ext) && (#[trigger] EXTS@[i])@
                    == seq!['.'] + #[trigger] text::lowercase(ext);
            paths::lemma_extension_is(name, ext);
            assert(EXTS@[i]@ == dotted_extension(name));
        }
    }
}

/// A scan takes, in the order of the entries, the regular files in the root that are of
/// an indexed kind, not ignored, and of a known size that is not over the limit.
pub proof fn law_scan_takes_the_right_files(
    root: Seq<char>,
    patterns: Ignore,
    entries: Seq<Entry>,
    max: u64,
    n: int,
)
    requires
        0 <= n <= entries.len(),
    ensures
        wanted_paths(root, patterns, entries, max, n) == entries.take(n).filter_map(
            |e: Entry|
                if e.is_file && indexable(e.path@) && paths::components(root).is_prefix_of(
                    paths::components(e.path@),
                ) && !ignores(
                    patterns.root(),
                    patterns.lines(),
                    paths::relative(e.path@, root)->0,
                    false,
                ) && e.len is Some && e.len->0 <= max {
                    Some(e.path@)
                } else {
                    None
                },
        ),
    decreases n,
{
    let f = |e: Entry|
        if e.is_file && indexable(e.path@) && paths::components(root).is_prefix_of(
            paths::components(e.path@),
        ) && !ignores(
            patterns.root(),
            patterns.lines(),
            paths::relative(e.path@, root)->0,
            false,
        ) && e.len is Some && e.len->0 <= max {
            Some(e.path@)
        } else {
            None
        };
    if n > 0 {
        law_scan_takes_the_right_files(root, patterns, entries, max, n - 1);
        entries.lemma_filter_map_take_succ(f, n - 1);
        let e = entries[n - 1];
        paths::lemma_within(e.path@, root);
        assert(entry_wanted(root, patterns, e, max) == (f(e) is Some));
        let head = wanted_paths(root, patterns, entries, max, n - 1);
        assert(head.push(e.path@) =~= head + seq![e.path@]);
        assert(head =~= head + Seq::<Seq<char>>::empty());
    } else {
        assert(entries.take(0).filter_map(f) =~= Seq::<Seq<char>>::empty());
        assert(wanted_paths(root, patterns, entries, max, n) =~= Seq::<Seq<char>>::empty());
    }
}

/// Live updates look at the files in the root that are of an indexed kind and not
/// ignored.
pub proof fn law_watched_files(root: Seq<char>, patterns: Ignore, path: Seq<char>)
    ensures
        wanted(root, patterns, path) <==> paths::components(root).is_prefix_of(
            paths::components(path),
        ) && indexable(path) && !ignores(
            patterns.root(),
            patterns.lines(),
            paths::relative(path, root)->0,
            false,
        ),
{
    paths::lemma_within(path, root);
}

/// A directory is watched where it is the root, lies outside it, or is not ignored.
pub proof fn law_watched_directories(
    root: Seq<char>,
    patterns: Ignore,
    path: Seq<char>,
    is_dir: bool,
)
    ensures
        dir_kept(root, patterns, path, is_dir) <==> is_dir && (!paths::components(
            root,
        ).is_prefix_of(paths::components(path)) || paths::relative(path, root)->0.len() == 0
            || !ignores(patterns.root(), patterns.lines(), paths::relative(path, root)->0, true)),
{
    paths::lemma_within(path, root);
}

/// The directories to watch are, in the order of the walk, those that are kept and lie
/// in no entry that is not: no such entry was met before them without one as high in
/// between.
pub proof fn law_walk_watches_what_it_reaches(
    root: Seq<char>,
    patterns: Ignore,
    entries: Seq<WalkEntry>,
    n: int,
)
    requires
        0 <= n <= entries.len(),
    ensures
        watched_below(root, patterns, entries, n) == Seq::new(
            n as nat,
            |i: int| i,
        ).filter_map(
            |i: int|
                if dir_kept(root, patterns, entries[i].path@, entries[i].is_dir) && (forall|j: int|
                    0 <= j < i && (forall|k: int|
                        j < k <= i ==> (#[trigger] entries[k]).depth > entries[j].depth)
                        ==> #[trigger] dir_kept(
                        root,
                        patterns,
                        entries[j].path@,
                        entries[j].is_dir,
                    )) {
                    Some(entries[i].path@)
                } else {
                    None
                },
        ),
    decreases n,
{
    let f = |i: int|
        if dir_kept(root, patterns, entries[i].path@, entries[i].is_dir) && (forall|j: int|
            0 <= j < i && (forall|k: int|
                j < k <= i ==> (#[trigger] entries[k]).depth > entries[j].depth)
                ==> #[trigger] dir_kept(root, patterns, entries[j].path@, entries[j].is_dir)) {
            Some(entries[i].path@)
        } else {
            None
        };
    let all = Seq::new(n as nat, |i: int| i);
    if n > 0 {
        law_walk_watches_what_it_reaches(root, patterns, entries, n - 1);
        let prior = Seq::new((n - 1) as nat, |i: int| i);
        assert(all.drop_last() =~= prior);
        let i = n - 1;
        assert(watched(root, patterns, entries, i) == (f(i) is Some)) by {
            assert forall|j: int| above(entries, j, i) == (0 <= j < i && (forall|k: int|
                j < k <= i ==> (#[trigger] entries[k]).depth > entries[j].depth)) by {}
            if f(i) is Some {
                assert forall|j: int| #[trigger] above(entries, j, i) implies dir_kept(
                    root,
                    patterns,
                    entries[j].path@,
                    entries[j].is_dir,
                ) by {}
            }
            if watched(root, patterns, entries, i) {
                assert forall|j: int|
                    0 <= j < i && (forall|k: int|
                        j < k <= i ==> (#[trigger] entries[k]).depth > entries[j].depth) implies
                    #[trigger] dir_kept(
                    root,
                    patterns,
                    entries[j].path@,
                    entries[j].is_dir,
                ) by {
                    assert(above(entries, j, i));
                }
            }
        }
        let head = watched_below(root, patterns, entries, n - 1);
        assert(all.last() == i);
        assert(head.push(entries[i].path@) =~= head + seq![entries[i].path@]);
    } else {
        assert(all.filter_map(f) =~= Seq::<Seq<char>>::empty());
    }
}

/// A relative path without doubled separators can be matched against the patterns
/// of any root.
pub proof fn law_plain_paths_match(root: Seq<char>, rel: Seq<char>)
    requires
        !text::has_prefix(rel, seq!['/']),
        forall|i: int| 0 < i < rel.len() && #[trigger] rel[i] == '/' ==> rel[i - 1] != '/',
    ensures
        matchable(root, rel),
{
    let p = without_dot(rel);
    let r = without_dot(root);
    let d = rel.len() - p.len();
    assert forall|i: int| 0 <= i < p.len() implies p[i] == #[trigger] rel[d + i] by {}
    assert(rel.len() > 0 ==> rel.take(1) =~= seq![rel[0]]);
    if p.len() > 0 && p[0] == '/' {
        assert(rel[d as int] == '/');
        if d > 0 {
            assert(rel.take(2) =~= seq!['.', '/']);
            assert(rel.take(2)[1] == rel[1]);
        }
        assert(false);
    }
    assert(p.len() > 0 ==> p.take(1)[0] == p[0]);
    if r != seq!['.'] && text::has_prefix(p, r) {
        let t = p.skip(r.len() as int);
        let left = config::without_prefix(t, seq!['/']);
        if text::has_prefix(left, seq!['/']) {
            assert(left.take(1)[0] == left[0]);
            if text::has_prefix(t, seq!['/']) {
                assert(t.take(1)[0] == t[0]);
                assert(left[0] == t[1]);
                let k = d + r.len();
                assert(t[0] == rel[k]);
                assert(t[1] == rel[k + 1]);
                assert(false);
            }
        }
    } else {
        if text::has_prefix(p, seq!['/']) {
            assert(p.take(1)[0] == p[0]);
        }
    }
}

} // verus!
