//! The registry of active roots: one marker file for each root and session.
//!
//! A marker is named `<hash>.<pid>`, after the root and the process that registered
//! it, and holds the path of the root and the name of its collection. It counts as
//! long as the process lives.
use vstd::prelude::*;

use crate::{config, digest, paths, splitlines, text};

verus! {

/// Where the markers are kept.
pub struct Registry {
    base: String,
}

/// The directory of the registry: below the runtime directory of the session where
/// it has one, else one of its own for the user.
pub open spec fn base_dir(runtime_dir: Option<Seq<char>>, uid: nat) -> Seq<char> {
    match runtime_dir {
        Some(dir) => if dir.len() > 0 {
            paths::joined(dir, "index-repo"@)
        } else {
            "/tmp/index-repo-"@ + text::decimal(uid)
        },
        None => "/tmp/index-repo-"@ + text::decimal(uid),
    }
}

impl Registry {
    /// The directory of the registry.
    pub closed spec fn base(self) -> Seq<char> {
        self.base@
    }

    /// The registry of a user's session, whose environment names a runtime directory
    /// or does not.
    pub fn from_env(runtime_dir: Option<&str>, uid: u32) -> (r: Registry)
        ensures
            r.base() == base_dir(config::opt_slice(runtime_dir), uid as nat),
    {
        match runtime_dir {
            Some(dir) => {
                if !dir.is_empty() {
                    return Registry { base: paths::join(dir, "index-repo") };
                }
            },
            None => {},
        }
        let mut base = "/tmp/index-repo-".to_string();
        base.append(text::decimal_text(uid as u64).as_str());
        Registry { base }
    }

    /// The registry in a directory.
    pub fn with_base(base: &str) -> (r: Registry)
        ensures
            r.base() == base@,
    {
        Registry { base: base.to_string() }
    }

    /// The directory of the registry.
    pub fn base_path(&self) -> (r: String)
        ensures
            r@ == self.base(),
    {
        self.base.clone()
    }

    /// The directory of the markers.
    pub fn roots_dir(&self) -> (r: String)
        ensures
            r@ == paths::joined(self.base(), "roots"@),
    {
        paths::join(self.base.as_str(), "roots")
    }

    /// The file that a running service holds a lock on.
    pub fn serve_lock_path(&self) -> (r: String)
        ensures
            r@ == paths::joined(self.base(), "serve.lock"@),
    {
        paths::join(self.base.as_str(), "serve.lock")
    }

    /// The hash of a root: the first 16 hexadecimal digits of the digest of its path.
    pub fn hash(canonical: &str) -> (r: String)
        ensures
            r@ == digest::short_hash(canonical@, 8),
            r@.len() == 16,
    {
        digest::short_hash_text(canonical, 8)
    }
}

// ---------------------------------------------------------------------------
// Markers
// ---------------------------------------------------------------------------

/// The name of the marker of a root and a process.
pub open spec fn marker_name_of(canonical: Seq<char>, pid: nat) -> Seq<char> {
    digest::short_hash(canonical, 8) + seq!['.'] + text::decimal(pid)
}

/// The name of the marker of a root and a process.
pub fn marker_name(canonical: &str, pid: u32) -> (r: String)
    ensures
        r@ == marker_name_of(canonical@, pid as nat),
{
    let mut name = Registry::hash(canonical);
    name.push('.');
    name.append(text::decimal_text(pid as u64).as_str());
    proof {
        assert(name@ =~= marker_name_of(canonical@, pid as nat));
    }
    name
}

/// What a marker holds: the path of the root and the name of its collection, each
/// on a line.
pub fn marker_content(canonical: &str, collection: &str) -> (r: String)
    ensures
        r@ == canonical@ + seq!['\n'] + collection@,
{
    let mut s = canonical.to_string();
    s.push('\n');
    s.append(collection);
    proof {
        assert(s@ =~= canonical@ + seq!['\n'] + collection@);
    }
    s
}

/// The process that a marker is named after: what follows the last dot of its name.
pub open spec fn pid_of(name: Seq<char>) -> Option<nat> {
    match text::rfind(name, '.') {
        Some(k) => text::number(name.skip((k + 1) as int), u32::MAX as nat),
        None => None,
    }
}

/// The process that a marker is named after, or `None` where the file is no marker.
pub fn marker_pid(name: &str) -> (r: Option<u32>)
    ensures
        match r {
            Some(pid) => pid_of(name@) == Some(pid as nat),
            None => pid_of(name@) is None,
        },
{
    let v = text::chars_of(name);
    proof {
        assert(v@.subrange(0, v@.len() as int) =~= name@);
    }
    match text::rfind_at(&v, 0, v.len(), '.') {
        Some(k) => {
            let tail = text::text_of(&v, k + 1, v.len());
            proof {
                assert(tail@ =~= name@.skip(k + 1));
            }
            match text::parse_number(tail.as_str(), u32::MAX as u64) {
                Some(n) => Some(n as u32),
                None => None,
            }
        },
        None => None,
    }
}

/// The root and the collection that a marker names. One without a second line is
/// given the name that the path of the root makes.
pub open spec fn marker_entry(contents: Seq<char>) -> Option<(Seq<char>, Seq<char>)> {
    let lines = splitlines::text_lines(contents);
    if lines.len() == 0 {
        None
    } else if lines.len() == 1 {
        Some((lines[0], config::fallback_collection(lines[0])))
    } else {
        Some((lines[0], lines[1]))
    }
}

/// The root and the collection that a marker names; `None` where it is empty.
pub fn read_marker(contents: &str) -> (r: Option<(String, String)>)
    ensures
        match r {
            Some((root, collection)) => marker_entry(contents@) == Some((root@, collection@)),
            None => marker_entry(contents@) is None,
        },
{
    let lines = splitlines::lines_of(contents);
    let ghost all = text::slices(lines@);
    proof {
        assert(all.len() == lines@.len());
    }
    if lines.len() == 0 {
        return None;
    }
    let root = lines[0].to_string();
    let collection = if lines.len() > 1 {
        lines[1].to_string()
    } else {
        config::fallback_collection_name(root.as_str())
    };
    Some((root, collection))
}

/// A file in the directory of the markers.
#[derive(Debug)]
pub struct Marker {
    pub name: String,
    /// Whether the process that it is named after lives.
    pub alive: bool,
    /// What it holds, where it could be read.
    pub contents: Option<String>,
}

/// The entry that a marker contributes: that of a living process, where the file
/// could be read.
pub open spec fn live_entry(m: Marker) -> Option<(Seq<char>, Seq<char>)> {
    if pid_of(m.name@) is Some && m.alive {
        match m.contents {
            Some(c) => marker_entry(c@),
            None => None,
        }
    } else {
        None
    }
}

// ---------------------------------------------------------------------------
// Order of paths
// ---------------------------------------------------------------------------

/// The place of a component among the kinds of components.
pub open spec fn rank(c: Seq<char>) -> int {
    if c == seq!['/'] {
        0
    } else if c == seq!['.'] {
        1
    } else if c == seq!['.', '.'] {
        2
    } else {
        3
    }
}

/// Whether `a` comes before `b`, character by character.
pub open spec fn text_before(a: Seq<char>, b: Seq<char>) -> bool
    decreases a.len(),
{
    if b.len() == 0 {
        false
    } else if a.len() == 0 {
        true
    } else if a[0] != b[0] {
        a[0] < b[0]
    } else {
        text_before(a.drop_first(), b.drop_first())
    }
}

/// Whether the component `a` comes before the component `b`.
pub open spec fn component_before(a: Seq<char>, b: Seq<char>) -> bool {
    if rank(a) != rank(b) {
        rank(a) < rank(b)
    } else {
        text_before(a, b)
    }
}

/// Whether the components `a` come before the components `b`.
pub open spec fn list_before(a: Seq<Seq<char>>, b: Seq<Seq<char>>) -> bool
    decreases a.len(),
{
    if b.len() == 0 {
        false
    } else if a.len() == 0 {
        true
    } else if a[0] != b[0] {
        component_before(a[0], b[0])
    } else {
        list_before(a.drop_first(), b.drop_first())
    }
}

/// Whether the path `a` comes before the path `b`, component by component.
pub open spec fn path_before(a: Seq<char>, b: Seq<char>) -> bool {
    list_before(paths::components(a), paths::components(b))
}

fn is_text_before(a: &str, b: &str) -> (r: bool)
    ensures
        r == text_before(a@, b@),
{
    let v = text::chars_of(a);
    let w = text::chars_of(b);
    let mut i: usize = 0;
    proof {
        assert(a@.skip(0) =~= a@);
        assert(b@.skip(0) =~= b@);
    }
    loop
        invariant
            v@ == a@,
            w@ == b@,
            i <= v@.len(),
            i <= w@.len(),
            text_before(a@, b@) == text_before(a@.skip(i as int), b@.skip(i as int)),
        decreases v@.len() - i,
    {
        if i == w.len() {
            return false;
        }
        if i == v.len() {
            return true;
        }
        proof {
            assert(a@.skip(i as int).drop_first() =~= a@.skip(i + 1));
            assert(b@.skip(i as int).drop_first() =~= b@.skip(i + 1));
        }
        if v[i] != w[i] {
            return v[i] < w[i];
        }
        i = i + 1;
    }
}

fn rank_of(c: &str) -> (r: u8)
    ensures
        r == rank(c@),
{
    proof {
        reveal_strlit("/");
        reveal_strlit(".");
        reveal_strlit("..");
        assert("/"@ =~= seq!['/']);
        assert("."@ =~= seq!['.']);
        assert(".."@ =~= seq!['.', '.']);
    }
    if text::str_eq(c, "/") {
        0
    } else if text::str_eq(c, ".") {
        1
    } else if text::str_eq(c, "..") {
        2
    } else {
        3
    }
}

/// Whether the path `a` comes before the path `b`, component by component.
pub fn is_path_before(a: &str, b: &str) -> (r: bool)
    ensures
        r == path_before(a@, b@),
{
    let p = paths::split_path(a);
    let q = paths::split_path(b);
    let ghost x = text::texts(p@);
    let ghost y = text::texts(q@);
    let mut i: usize = 0;
    proof {
        assert(x.skip(0) =~= x);
        assert(y.skip(0) =~= y);
    }
    loop
        invariant
            x == text::texts(p@),
            y == text::texts(q@),
            x == paths::components(a@),
            y == paths::components(b@),
            i <= p@.len(),
            i <= q@.len(),
            path_before(a@, b@) == list_before(x.skip(i as int), y.skip(i as int)),
        decreases p@.len() - i,
    {
        if i == q.len() {
            return false;
        }
        if i == p.len() {
            return true;
        }
        proof {
            assert(x.skip(i as int).drop_first() =~= x.skip(i + 1));
            assert(y.skip(i as int).drop_first() =~= y.skip(i + 1));
            assert(x.skip(i as int)[0] == p@[i as int]@);
            assert(y.skip(i as int)[0] == q@[i as int]@);
        }
        if !text::str_eq(p[i].as_str(), q[i].as_str()) {
            let m = rank_of(p[i].as_str());
            let n = rank_of(q[i].as_str());
            if m != n {
                return m < n;
            }
            return is_text_before(p[i].as_str(), q[i].as_str());
        }
        i = i + 1;
    }
}

// ---------------------------------------------------------------------------
// Scan
// ---------------------------------------------------------------------------

/// `list`, ordered by path, with an entry added. A path that is there already keeps
/// its place and its spelling, and takes the new collection.
pub open spec fn insert_entry(
    list: Seq<(Seq<char>, Seq<char>)>,
    root: Seq<char>,
    collection: Seq<char>,
) -> Seq<(Seq<char>, Seq<char>)>
    decreases list.len(),
{
    if list.len() == 0 {
        seq![(root, collection)]
    } else if paths::components(root) == paths::components(list[0].0) {
        seq![(list[0].0, collection)] + list.drop_first()
    } else if path_before(root, list[0].0) {
        seq![(root, collection)] + list
    } else {
        seq![list[0]] + insert_entry(list.drop_first(), root, collection)
    }
}

/// The entries of the living markers among the first `n`, ordered by path.
pub open spec fn live_below(markers: Seq<Marker>, n: int) -> Seq<(Seq<char>, Seq<char>)>
    decreases n,
{
    if n <= 0 {
        Seq::empty()
    } else {
        match live_entry(markers[n - 1]) {
            Some((root, collection)) => insert_entry(
                live_below(markers, n - 1),
                root,
                collection,
            ),
            None => live_below(markers, n - 1),
        }
    }
}

/// Whether a marker is to be removed: its process has ended.
pub open spec fn is_dead(m: Marker) -> bool {
    pid_of(m.name@) is Some && !m.alive
}

/// The names of the markers to remove among the first `n`, in order.
pub open spec fn dead_below(markers: Seq<Marker>, n: int) -> Seq<Seq<char>>
    decreases n,
{
    if n <= 0 {
        Seq::empty()
    } else if is_dead(markers[n - 1]) {
        dead_below(markers, n - 1).push(markers[n - 1].name@)
    } else {
        dead_below(markers, n - 1)
    }
}

/// The views of a list of entries.
pub open spec fn entry_views(v: Seq<(String, String)>) -> Seq<(Seq<char>, Seq<char>)> {
    Seq::new(v.len(), |i: int| (v[i].0@, v[i].1@))
}

proof fn lemma_insert_from(
    list: Seq<(Seq<char>, Seq<char>)>,
    root: Seq<char>,
    collection: Seq<char>,
    i: int,
)
    requires
        0 <= i <= list.len(),
        forall|k: int|
            0 <= k < i ==> paths::components(root) != paths::components((#[trigger] list[k]).0)
                && !path_before(root, list[k].0),
    ensures
        insert_entry(list, root, collection) == list.take(i) + insert_entry(
            list.skip(i),
            root,
            collection,
        ),
    decreases i,
{
    if i == 0 {
        assert(list.skip(0) =~= list);
        assert(list.take(0) + insert_entry(list, root, collection) =~= insert_entry(
            list,
            root,
            collection,
        ));
    } else {
        let t = list.drop_first();
        assert forall|k: int| 0 <= k < i - 1 implies paths::components(root) != paths::components(
            (#[trigger] t[k]).0,
        ) && !path_before(root, t[k].0) by {
            assert(t[k] == list[k + 1]);
        }
        lemma_insert_from(t, root, collection, i - 1);
        assert(t.skip(i - 1) =~= list.skip(i));
        assert(paths::components(root) != paths::components(list[0].0));
        assert(insert_entry(list, root, collection) =~= list.take(i) + insert_entry(
            list.skip(i),
            root,
            collection,
        ));
    }
}

/// Adds an entry to a list that is ordered by path.
fn add_entry(list: &mut Vec<(String, String)>, root: String, collection: String)
    ensures
        entry_views(final(list)@) == insert_entry(
            entry_views(old(list)@),
            root@,
            collection@,
        ),
{
    let ghost all = entry_views(list@);
    let mut i: usize = 0;
    while i < list.len()
        invariant
            all == entry_views(list@),
            list@ == old(list)@,
            i <= list@.len(),
            forall|k: int|
                0 <= k < i ==> paths::components(root@) != paths::components((#[trigger] all[k]).0)
                    && !path_before(root@, all[k].0),
        decreases list@.len() - i,
    {
        proof {
            assert(all[i as int] == (list@[i as int].0@, list@[i as int].1@));
            assert(all.skip(i as int)[0] == all[i as int]);
        }
        if paths::same_path(root.as_str(), list[i].0.as_str()) {
            let kept = list[i].0.clone();
            proof {
                lemma_insert_from(all, root@, collection@, i as int);
            }
            list.set(i, (kept, collection));
            proof {
                assert(entry_views(list@) =~= all.take(i as int) + (seq![(kept@, collection@)]
                    + all.skip(i as int).drop_first()));
            }
            return;
        }
        if is_path_before(root.as_str(), list[i].0.as_str()) {
            proof {
                lemma_insert_from(all, root@, collection@, i as int);
            }
            list.insert(i, (root, collection));
            proof {
                assert(entry_views(list@) =~= all.take(i as int) + (seq![(root@, collection@)]
                    + all.skip(i as int)));
            }
            return;
        }
        i = i + 1;
    }
    proof {
        lemma_insert_from(all, root@, collection@, i as int);
        assert(all.skip(i as int).len() == 0);
    }
    list.push((root, collection));
    proof {
        assert(entry_views(list@) =~= all.take(i as int) + seq![(root@, collection@)]);
    }
}

impl Registry {
    /// The roots with a living marker and their collections, ordered by path and each
    /// once, and the names of the markers to remove.
    pub fn scan(markers: &Vec<Marker>) -> (r: (Vec<(String, String)>, Vec<String>))
        ensures
            entry_views(r.0@) == live_below(markers@, markers@.len() as int),
            in_order(entry_views(r.0@)),
            text::texts(r.1@) == dead_below(markers@, markers@.len() as int),
    {
        let mut live: Vec<(String, String)> = Vec::new();
        let mut dead: Vec<String> = Vec::new();
        let mut i: usize = 0;
        proof {
            assert(entry_views(live@) =~= live_below(markers@, 0));
            assert(text::texts(dead@) =~= dead_below(markers@, 0));
        }
        while i < markers.len()
            invariant
                i <= markers@.len(),
                entry_views(live@) == live_below(markers@, i as int),
                text::texts(dead@) == dead_below(markers@, i as int),
            decreases markers@.len() - i,
        {
            let m = &markers[i];
            match marker_pid(m.name.as_str()) {
                Some(_) => {
                    if m.alive {
                        match &m.contents {
                            Some(c) => match read_marker(c.as_str()) {
                                Some((root, collection)) => {
                                    add_entry(&mut live, root, collection);
                                },
                                None => {},
                            },
                            None => {},
                        }
                    } else {
                        let ghost before = dead@;
                        dead.push(m.name.clone());
                        proof {
                            assert(text::texts(dead@) =~= text::texts(before).push(m.name@));
                        }
                    }
                },
                None => {},
            }
            i = i + 1;
        }
        proof {
            law_scan_lists_roots_once(markers@, markers@.len() as int);
        }
        (live, dead)
    }
}

// ---------------------------------------------------------------------------
// Laws
// ---------------------------------------------------------------------------

proof fn lemma_text_order(a: Seq<char>, b: Seq<char>, c: Seq<char>)
    ensures
        !text_before(a, a),
        text_before(a, b) && text_before(b, c) ==> text_before(a, c),
        a == b || text_before(a, b) || text_before(b, a),
        !(text_before(a, b) && text_before(b, a)),
    decreases a.len(),
{
    if a.len() > 0 {
        let t = a.drop_first();
        if b.len() > 0 && c.len() > 0 {
            lemma_text_order(t, b.drop_first(), c.drop_first());
        } else if b.len() > 0 {
            lemma_text_order(t, b.drop_first(), c);
        } else {
            lemma_text_order(t, b, c);
        }
        if b.len() > 0 && a[0] == b[0] && t == b.drop_first() {
            assert(a =~= seq![a[0]] + t);
            assert(b =~= seq![b[0]] + b.drop_first());
        }
    } else if b.len() == 0 {
        assert(a =~= b);
    }
}

proof fn lemma_component_order(a: Seq<char>, b: Seq<char>, c: Seq<char>)
    ensures
        !component_before(a, a),
        component_before(a, b) && component_before(b, c) ==> component_before(a, c),
        a == b || component_before(a, b) || component_before(b, a),
        !(component_before(a, b) && component_before(b, a)),
{
    lemma_text_order(a, b, c);
}

proof fn lemma_list_order(a: Seq<Seq<char>>, b: Seq<Seq<char>>, c: Seq<Seq<char>>)
    ensures
        !list_before(a, a),
        list_before(a, b) && list_before(b, c) ==> list_before(a, c),
        a == b || list_before(a, b) || list_before(b, a),
        !(list_before(a, b) && list_before(b, a)),
    decreases a.len(),
{
    if a.len() > 0 {
        let t = a.drop_first();
        if b.len() > 0 && c.len() > 0 {
            lemma_list_order(t, b.drop_first(), c.drop_first());
            lemma_component_order(a[0], b[0], c[0]);
        } else if b.len() > 0 {
            lemma_list_order(t, b.drop_first(), c);
            lemma_component_order(a[0], b[0], b[0]);
        } else {
            lemma_list_order(t, b, c);
        }
        if b.len() > 0 && a[0] == b[0] && t == b.drop_first() {
            assert(a =~= seq![a[0]] + t);
            assert(b =~= seq![b[0]] + b.drop_first());
        }
    } else if b.len() == 0 {
        assert(a =~= b);
    }
}

/// Whether entries are in strict order of their paths, so that no path occurs twice.
pub open spec fn in_order(list: Seq<(Seq<char>, Seq<char>)>) -> bool {
    forall|i: int, j: int|
        0 <= i < j < list.len() ==> path_before((#[trigger] list[i]).0, (#[trigger] list[j]).0)
}

proof fn lemma_insert_in_order(
    list: Seq<(Seq<char>, Seq<char>)>,
    root: Seq<char>,
    collection: Seq<char>,
)
    requires
        in_order(list),
    ensures
        in_order(insert_entry(list, root, collection)),
        forall|i: int|
            0 <= i < insert_entry(list, root, collection).len() ==> paths::components(
                (#[trigger] insert_entry(list, root, collection)[i]).0,
            ) == paths::components(root) || exists|j: int|
                0 <= j < list.len() && (#[trigger] list[j]).0 == insert_entry(
                    list,
                    root,
                    collection,
                )[i].0,
    decreases list.len(),
{
    let r = insert_entry(list, root, collection);
    if list.len() > 0 {
        let first = list[0];
        let t = list.drop_first();
        assert forall|i: int, j: int| 0 <= i < j < t.len() implies path_before(
            (#[trigger] t[i]).0,
            (#[trigger] t[j]).0,
        ) by {
            assert(t[i] == list[i + 1]);
            assert(t[j] == list[j + 1]);
        }
        if paths::components(root) == paths::components(first.0) {
            assert forall|i: int| 0 < i < r.len() implies #[trigger] r[i] == list[i] by {}
            assert(r[0].0 == first.0);
            assert forall|i: int, j: int| 0 <= i < j < r.len() implies path_before(
                (#[trigger] r[i]).0,
                (#[trigger] r[j]).0,
            ) by {
                assert(path_before(list[i].0, list[j].0));
            }
            assert forall|i: int| 0 <= i < r.len() implies paths::components((#[trigger] r[i]).0)
                == paths::components(root) || exists|j: int|
                0 <= j < list.len() && (#[trigger] list[j]).0 == r[i].0 by {
                assert(list[i].0 == r[i].0);
            }
        } else if path_before(root, first.0) {
            assert forall|i: int| 1 <= i < r.len() implies #[trigger] r[i] == list[i - 1] by {}
            assert forall|i: int, j: int| 0 <= i < j < r.len() implies path_before(
                (#[trigger] r[i]).0,
                (#[trigger] r[j]).0,
            ) by {
                if i > 0 {
                    assert(path_before(list[i - 1].0, list[j - 1].0));
                } else if j > 1 {
                    assert(path_before(list[0].0, list[j - 1].0));
                    lemma_list_order(
                        paths::components(root),
                        paths::components(first.0),
                        paths::components(list[j - 1].0),
                    );
                }
            }
            assert forall|i: int| 0 <= i < r.len() implies paths::components((#[trigger] r[i]).0)
                == paths::components(root) || exists|j: int|
                0 <= j < list.len() && (#[trigger] list[j]).0 == r[i].0 by {
                if i > 0 {
                    assert(list[i - 1].0 == r[i].0);
                }
            }
        } else {
            lemma_insert_in_order(t, root, collection);
            let q = insert_entry(t, root, collection);
            assert forall|i: int| 1 <= i < r.len() implies #[trigger] r[i] == q[i - 1] by {}
            assert forall|k: int| 0 <= k < q.len() implies path_before(first.0, (#[trigger] q[k]).0) by {
                if paths::components(q[k].0) == paths::components(root) {
                    lemma_list_order(
                        paths::components(first.0),
                        paths::components(root),
                        paths::components(root),
                    );
                } else {
                    let j = choose|j: int| 0 <= j < t.len() && (#[trigger] t[j]).0 == q[k].0;
                    assert(t[j] == list[j + 1]);
                    assert(path_before(list[0].0, list[j + 1].0));
                }
            }
            assert forall|i: int, j: int| 0 <= i < j < r.len() implies path_before(
                (#[trigger] r[i]).0,
                (#[trigger] r[j]).0,
            ) by {
                if i > 0 {
                    assert(path_before(q[i - 1].0, q[j - 1].0));
                } else {
                    assert(path_before(first.0, q[j - 1].0));
                }
            }
            assert forall|i: int| 0 <= i < r.len() implies paths::components((#[trigger] r[i]).0)
                == paths::components(root) || exists|j: int|
                0 <= j < list.len() && (#[trigger] list[j]).0 == r[i].0 by {
                if i == 0 {
                    assert(list[0].0 == r[0].0);
                } else {
                    assert(r[i] == q[i - 1]);
                    if paths::components(q[i - 1].0) != paths::components(root) {
                        let j = choose|j: int| 0 <= j < t.len() && (#[trigger] t[j]).0 == q[i
                            - 1].0;
                        assert(t[j] == list[j + 1]);
                    }
                }
            }
        }
    }
}

/// A scan lists each root once, in the order of the paths, however many markers it
/// has.
pub proof fn law_scan_lists_roots_once(markers: Seq<Marker>, n: int)
    requires
        0 <= n <= markers.len(),
    ensures
        in_order(live_below(markers, n)),
    decreases n,
{
    if n > 0 {
        law_scan_lists_roots_once(markers, n - 1);
        match live_entry(markers[n - 1]) {
            Some((root, collection)) => {
                lemma_insert_in_order(live_below(markers, n - 1), root, collection);
            },
            None => {},
        }
    }
}

/// Whether a list has an entry for the path.
pub open spec fn lists(list: Seq<(Seq<char>, Seq<char>)>, p: Seq<char>) -> bool {
    exists|i: int|
        0 <= i < list.len() && paths::components((#[trigger] list[i]).0) == paths::components(p)
}

/// Whether one of the first `n` markers is a living one for the path.
pub open spec fn marked(markers: Seq<Marker>, n: int, p: Seq<char>) -> bool {
    exists|i: int|
        0 <= i < n && match live_entry(#[trigger] markers[i]) {
            Some((root, _)) => paths::components(root) == paths::components(p),
            None => false,
        }
}

proof fn lemma_insert_lists(
    list: Seq<(Seq<char>, Seq<char>)>,
    root: Seq<char>,
    collection: Seq<char>,
    p: Seq<char>,
)
    ensures
        lists(insert_entry(list, root, collection), p) <==> lists(list, p) || paths::components(
            root,
        ) == paths::components(p),
    decreases list.len(),
{
    let r = insert_entry(list, root, collection);
    if list.len() == 0 {
        if paths::components(root) == paths::components(p) {
            assert(r[0].0 == root);
        }
    } else if paths::components(root) == paths::components(list[0].0) {
        assert(r[0].0 == list[0].0);
        assert forall|i: int| 0 <= i < list.len() implies (#[trigger] r[i]).0 == list[i].0 by {}
        if lists(r, p) {
            let i = choose|i: int|
                0 <= i < r.len() && paths::components((#[trigger] r[i]).0) == paths::components(p);
            assert(list[i].0 == r[i].0);
        }
        if lists(list, p) {
            let i = choose|i: int|
                0 <= i < list.len() && paths::components((#[trigger] list[i]).0)
                    == paths::components(p);
            assert(r[i].0 == list[i].0);
        }
    } else if path_before(root, list[0].0) {
        assert(r[0].0 == root);
        if lists(r, p) {
            let i = choose|i: int|
                0 <= i < r.len() && paths::components((#[trigger] r[i]).0) == paths::components(p);
            if i > 0 {
                assert(list[i - 1] == r[i]);
            }
        }
        if lists(list, p) {
            let i = choose|i: int|
                0 <= i < list.len() && paths::components((#[trigger] list[i]).0)
                    == paths::components(p);
            assert(r[i + 1] == list[i]);
        }
    } else {
        let t = list.drop_first();
        let q = insert_entry(t, root, collection);
        lemma_insert_lists(t, root, collection, p);
        assert(r[0] == list[0]);
        if lists(r, p) {
            let i = choose|i: int|
                0 <= i < r.len() && paths::components((#[trigger] r[i]).0) == paths::components(p);
            if i > 0 {
                assert(q[i - 1] == r[i]);
                assert(lists(q, p));
                if lists(t, p) {
                    let k = choose|k: int|
                        0 <= k < t.len() && paths::components((#[trigger] t[k]).0)
                            == paths::components(p);
                    assert(list[k + 1] == t[k]);
                }
            }
        }
        if lists(list, p) {
            let i = choose|i: int|
                0 <= i < list.len() && paths::components((#[trigger] list[i]).0)
                    == paths::components(p);
            if i > 0 {
                assert(t[i - 1] == list[i]);
                assert(lists(q, p));
            }
        }
        if lists(q, p) {
            let i = choose|i: int|
                0 <= i < q.len() && paths::components((#[trigger] q[i]).0) == paths::components(p);
            assert(r[i + 1] == q[i]);
        }
    }
}

/// A root is found by a scan exactly as long as a living marker is for it, however
/// many others there are.
pub proof fn law_root_is_live_while_marked(markers: Seq<Marker>, n: int, p: Seq<char>)
    requires
        0 <= n <= markers.len(),
    ensures
        lists(live_below(markers, n), p) <==> marked(markers, n, p),
    decreases n,
{
    if n > 0 {
        law_root_is_live_while_marked(markers, n - 1, p);
        let before = live_below(markers, n - 1);
        if marked(markers, n - 1, p) {
            let i = choose|i: int|
                0 <= i < n - 1 && match live_entry(#[trigger] markers[i]) {
                    Some((root, _)) => paths::components(root) == paths::components(p),
                    None => false,
                };
            assert(marked(markers, n, p));
        }
        match live_entry(markers[n - 1]) {
            Some((root, collection)) => {
                lemma_insert_lists(before, root, collection, p);
                if paths::components(root) == paths::components(p) {
                    assert(live_entry(markers[n - 1]) is Some);
                    assert(marked(markers, n, p));
                }
            },
            None => {},
        }
    }
}

/// A marker names the process that it was made for.
pub proof fn law_marker_names_its_process(canonical: Seq<char>, pid: nat)
    requires
        pid <= u32::MAX,
    ensures
        pid_of(marker_name_of(canonical, pid)) == Some(pid),
{
    let digits = text::decimal(pid);
    let head = digest::short_hash(canonical, 8);
    let name = marker_name_of(canonical, pid);
    text::lemma_decimal_digits(pid);
    text::lemma_number_of_decimal(pid, u32::MAX as nat);
    text::lemma_rfind_after(head, digits, '.');
    assert(name.skip(head.len() as int + 1) =~= digits);
}

/// A marker gives back the root and the collection that were written to it, where
/// neither holds a line break and a collection is named.
pub proof fn law_marker_gives_back_its_entry(canonical: Seq<char>, collection: Seq<char>)
    requires
        collection.len() > 0,
        canonical.len() > 0 ==> canonical.last() != '\r',
        forall|i: int| 0 <= i < canonical.len() ==> #[trigger] canonical[i] != '\n',
        forall|i: int| 0 <= i < collection.len() ==> #[trigger] collection[i] != '\n',
    ensures
        marker_entry(canonical + seq!['\n'] + collection) == Some((canonical, collection)),
{
    let s = canonical + seq!['\n'] + collection;
    let k = canonical.len() as int;
    assert(s.skip(0) =~= s);
    assert forall|i: int| 0 <= i < k implies #[trigger] s[i] != '\n' by {
        assert(s[i] == canonical[i]);
    }
    assert(s[k] == '\n');
    text::lemma_first_of_is(s, '\n', 0, k);
    assert(s.take(k) =~= canonical);
    let rest = s.skip(k + 1);
    assert(rest =~= collection);
    assert(collection.skip(0) =~= collection);
    text::lemma_first_of_is(collection, '\n', 0, collection.len() as int);
    assert(splitlines::text_lines(collection) =~= seq![collection]);
    assert(splitlines::text_lines(s) =~= seq![canonical, collection]);
}

/// The registry lies in the runtime directory of the session, as `index-repo`, or
/// without one in `/tmp`, with the number of the user; the markers are in `roots` below
/// it, and the lock of the service in `serve.lock`.
pub proof fn law_places_of_the_registry(
    dir: &str,
    uid: u32,
    named: Registry,
    own: Registry,
    blank: Registry,
    empty: &str,
    roots: String,
    lock: String,
)
    requires
        dir@.len() > 0,
        empty@.len() == 0,
        call_ensures(Registry::from_env, (Some(dir), uid), named),
        call_ensures(Registry::from_env, (None, uid), own),
        call_ensures(Registry::from_env, (Some(empty), uid), blank),
        call_ensures(Registry::roots_dir, (&named,), roots),
        call_ensures(Registry::serve_lock_path, (&named,), lock),
    ensures
        paths::components(named.base()) == paths::components(dir@).push("index-repo"@),
        own.base() == "/tmp/index-repo-"@ + text::decimal(uid as nat),
        blank.base() == own.base(),
        paths::components(roots@) == paths::components(named.base()).push("roots"@),
        paths::components(lock@) == paths::components(named.base()).push("serve.lock"@),
{
    reveal_strlit("index-repo");
    reveal_strlit("roots");
    reveal_strlit("serve.lock");
    lemma_is_entry("index-repo"@);
    lemma_is_entry("roots"@);
    lemma_is_entry("serve.lock"@);
    paths::law_components_of_an_entry(dir@, "index-repo"@);
    assert(named.base() == paths::joined(dir@, "index-repo"@));
    assert(named.base().len() > 0);
    paths::law_components_of_an_entry(named.base(), "roots"@);
    paths::law_components_of_an_entry(named.base(), "serve.lock"@);
}

proof fn lemma_is_entry(name: Seq<char>)
    requires
        name.len() > 1,
        forall|i: int| 0 <= i < name.len() ==> #[trigger] name[i] != '/',
    ensures
        name != seq!['.'],
        !name.contains('/'),
{
}

/// A marker is named after its root, by the first 16 digits of the digest of the path,
/// and after its process.
pub proof fn law_marker_names(canonical: Seq<char>, pid: nat)
    requires
        digest::sha1_digest(vstd::utf8::encode_utf8(canonical)).len() == 20,
    ensures
        marker_name_of(canonical, pid) == digest::sha1_hex(canonical).take(16) + seq!['.']
            + text::decimal(pid),
{
    digest::law_short_hash_starts_the_whole(canonical, 8);
}

/// A marker counts where its name ends with the number of a process, the process lives
/// and the file could be read. It stands for the root on its first line and the
/// collection on its second; further lines count for nothing, and without a second the
/// collection is the one that the path makes.
#[verifier::rlimit(40)]
#[verifier::spinoff_prover]
pub proof fn law_markers_of_the_living(
    m: Marker,
    hash: Seq<char>,
    pid: nat,
    root: Seq<char>,
    collection: Seq<char>,
    rest: Seq<char>,
)
    requires
        pid <= u32::MAX,
        root.len() > 0,
        root.last() != '\r',
        collection.len() > 0,
        collection.last() != '\r',
        forall|i: int| 0 <= i < root.len() ==> #[trigger] root[i] != '\n',
        forall|i: int| 0 <= i < collection.len() ==> #[trigger] collection[i] != '\n',
        m.name@ == hash + seq!['.'] + text::decimal(pid),
    ensures
        !m.alive ==> live_entry(m) is None && is_dead(m),
        m.contents is None ==> live_entry(m) is None,
        m.alive ==> !is_dead(m),
        m.alive && m.contents is Some && (m.contents.unwrap()@ == root + seq!['\n'] + collection
            || m.contents.unwrap()@ == root + seq!['\n'] + collection + seq!['\n'] + rest)
            ==> live_entry(m) == Some((root, collection)),
        m.alive && m.contents is Some && (m.contents.unwrap()@ == root || m.contents.unwrap()@
            == root + seq!['\n']) ==> live_entry(m) == Some((root, config::fallback_collection(root))),
        m.contents is Some && m.contents.unwrap()@.len() == 0 ==> live_entry(m) is None,
{
    let digits = text::decimal(pid);
    text::lemma_decimal_digits(pid);
    text::lemma_number_of_decimal(pid, u32::MAX as nat);
    text::lemma_rfind_after(hash, digits, '.');
    assert(m.name@.skip(hash.len() as int + 1) =~= digits);
    law_marker_gives_back_its_entry(root, collection);
    let none = Seq::<char>::empty();
    splitlines::law_text_lines_end_at_newlines(root, none);
    assert(root + seq!['\n'] + none =~= root + seq!['\n']);
    splitlines::law_text_lines_end_at_newlines(collection, rest);
    let tail = collection + seq!['\n'] + rest;
    splitlines::law_text_lines_end_at_newlines(root, tail);
    assert(root + seq!['\n'] + collection + seq!['\n'] + rest =~= root + seq!['\n'] + tail);
    if m.contents is Some && m.contents.unwrap()@.len() == 0 {
        assert(m.contents.unwrap()@ =~= none);
    }
}

/// A file whose name has no dot, or something else than a number behind its last one, is
/// no marker: it is neither read nor removed.
pub proof fn law_other_files_are_left_alone(m: Marker, a: Seq<char>, b: Seq<char>)
    requires
        forall|i: int| 0 <= i < b.len() ==> #[trigger] b[i] != '.',
        m.name@ == b || (m.name@ == a + seq!['.'] + b && text::number(b, u32::MAX as nat) is None),
    ensures
        live_entry(m) is None,
        !is_dead(m),
{
    text::lemma_rfind_is_last(m.name@, '.');
    if m.name@ != b {
        text::lemma_rfind_after(a, b, '.');
        assert(m.name@.skip(a.len() as int + 1) =~= b);
    }
}

/// The markers to remove are those of processes that have ended, in order.
pub proof fn law_dead_markers(markers: Seq<Marker>, n: int)
    requires
        0 <= n <= markers.len(),
    ensures
        dead_below(markers, n) == markers.take(n).filter_map(
            |m: Marker|
                if pid_of(m.name@) is Some && !m.alive {
                    Some(m.name@)
                } else {
                    None
                },
        ),
    decreases n,
{
    let f = |m: Marker|
        if pid_of(m.name@) is Some && !m.alive {
            Some(m.name@)
        } else {
            None
        };
    if n > 0 {
        law_dead_markers(markers, n - 1);
        markers.lemma_filter_map_take_succ(f, n - 1);
        let head = dead_below(markers, n - 1);
        assert(head.push(markers[n - 1].name@) =~= head + seq![markers[n - 1].name@]);
        assert(head =~= head + Seq::<Seq<char>>::empty());
    } else {
        assert(markers.take(0).filter_map(f) =~= Seq::<Seq<char>>::empty()) by {
            reveal(Seq::filter_map);
        }
    }
}

/// A root with several markers is indexed in the collection that the last of the living
/// ones names.
pub proof fn law_last_marker_names_the_collection(
    markers: Seq<Marker>,
    n: int,
    i: int,
    root: Seq<char>,
    collection: Seq<char>,
) -> (k: int)
    requires
        0 <= i < n <= markers.len(),
        live_entry(markers[i]) == Some((root, collection)),
        forall|j: int|
            i < j < n ==> match live_entry(#[trigger] markers[j]) {
                Some((other, _)) => paths::components(other) != paths::components(root),
                None => true,
            },
    ensures
        0 <= k < live_below(markers, n).len(),
        paths::components(live_below(markers, n)[k].0) == paths::components(root),
        live_below(markers, n)[k].1 == collection,
    decreases n,
{
    let before = live_below(markers, n - 1);
    if i == n - 1 {
        lemma_insert_puts(before, root, collection)
    } else {
        let k = law_last_marker_names_the_collection(markers, n - 1, i, root, collection);
        match live_entry(markers[n - 1]) {
            Some((other, c)) => {
                assert(live_entry(markers[n - 1]) is Some);
                lemma_insert_keeps(before, other, c, k)
            },
            None => k,
        }
    }
}

proof fn lemma_insert_puts(
    list: Seq<(Seq<char>, Seq<char>)>,
    root: Seq<char>,
    collection: Seq<char>,
) -> (k: int)
    ensures
        0 <= k < insert_entry(list, root, collection).len(),
        paths::components(insert_entry(list, root, collection)[k].0) == paths::components(root),
        insert_entry(list, root, collection)[k].1 == collection,
    decreases list.len(),
{
    if list.len() == 0 || paths::components(root) == paths::components(list[0].0) || path_before(
        root,
        list[0].0,
    ) {
        0
    } else {
        let k = lemma_insert_puts(list.drop_first(), root, collection);
        k + 1
    }
}

proof fn lemma_insert_keeps(
    list: Seq<(Seq<char>, Seq<char>)>,
    root: Seq<char>,
    collection: Seq<char>,
    i: int,
) -> (k: int)
    requires
        0 <= i < list.len(),
        paths::components(list[i].0) != paths::components(root),
    ensures
        0 <= k < insert_entry(list, root, collection).len(),
        insert_entry(list, root, collection)[k] == list[i],
    decreases list.len(),
{
    if paths::components(root) == paths::components(list[0].0) {
        i
    } else if path_before(root, list[0].0) {
        i + 1
    } else if i == 0 {
        0
    } else {
        let k = lemma_insert_keeps(list.drop_first(), root, collection, i - 1);
        k + 1
    }
}

/// Texts are ordered by their first difference, and one that starts another comes
/// before it.
#[verifier::rlimit(40)]
#[verifier::spinoff_prover]
pub proof fn law_order_of_texts(a: Seq<char>, b: Seq<char>)
    ensures
        text_before(a, b) <==> (a != b && a.is_prefix_of(b)) || exists|k: int|
            0 <= k < a.len() && k < b.len() && #[trigger] a.take(k) == b.take(k) && a[k] < b[k],
    decreases a.len(),
{
    if b.len() == 0 {
        if a.is_prefix_of(b) {
            assert(a =~= b);
        }
    } else if a.len() == 0 {
        assert(a.is_prefix_of(b));
    } else if a[0] != b[0] {
        assert(!a.is_prefix_of(b));
        if a[0] < b[0] {
            assert(a.take(0) == b.take(0));
        }
        if exists|k: int|
            0 <= k < a.len() && k < b.len() && #[trigger] a.take(k) == b.take(k) && a[k] < b[k] {
            let k = choose|k: int|
                0 <= k < a.len() && k < b.len() && #[trigger] a.take(k) == b.take(k) && a[k] < b[k];
            if k > 0 {
                assert(a.take(k)[0] == b.take(k)[0]);
            }
        }
    } else {
        let x = a.drop_first();
        let y = b.drop_first();
        law_order_of_texts(x, y);
        if x.is_prefix_of(y) {
            assert(a =~= b.take(a.len() as int)) by {
                assert forall|i: int| 0 <= i < a.len() implies a[i] == b[i] by {
                    if i > 0 {
                        assert(x[i - 1] == y.take(x.len() as int)[i - 1]);
                    }
                }
            }
            if a == b {
                assert(x =~= y);
            }
        }
        if a.is_prefix_of(b) {
            assert(x =~= y.take(x.len() as int)) by {
                assert forall|i: int| 0 <= i < x.len() implies x[i] == y[i] by {
                    assert(a[i + 1] == b.take(a.len() as int)[i + 1]);
                }
            }
            if x == y {
                assert(a =~= b);
            }
        }
        if exists|k: int|
            0 <= k < x.len() && k < y.len() && #[trigger] x.take(k) == y.take(k) && x[k] < y[k] {
            let k = choose|k: int|
                0 <= k < x.len() && k < y.len() && #[trigger] x.take(k) == y.take(k) && x[k] < y[k];
            assert(a.take(k + 1) =~= b.take(k + 1)) by {
                assert forall|i: int| 0 <= i < k + 1 implies a[i] == b[i] by {
                    if i > 0 {
                        assert(x.take(k)[i - 1] == y.take(k)[i - 1]);
                    }
                }
            }
            assert(a[k + 1] < b[k + 1]);
        }
        if exists|k: int|
            0 <= k < a.len() && k < b.len() && #[trigger] a.take(k) == b.take(k) && a[k] < b[k] {
            let k = choose|k: int|
                0 <= k < a.len() && k < b.len() && #[trigger] a.take(k) == b.take(k) && a[k] < b[k];
            assert(k > 0);
            assert(x.take(k - 1) =~= y.take(k - 1)) by {
                assert forall|i: int| 0 <= i < k - 1 implies x[i] == y[i] by {
                    assert(a.take(k)[i + 1] == b.take(k)[i + 1]);
                }
            }
            assert(x[k - 1] < y[k - 1]);
        }
    }
}

/// Components are ordered by their kinds, the root before `.` before `..` before names,
/// and names as texts. Paths are ordered by their first different component, and one that
/// starts another comes before it.
pub proof fn law_order_of_paths(a: Seq<char>, b: Seq<char>, p: Seq<Seq<char>>, q: Seq<Seq<char>>)
    ensures
        paths::normal(a) && paths::normal(b) ==> component_before(a, b) == text_before(a, b),
        a != seq!['/'] ==> component_before(seq!['/'], a) && !component_before(a, seq!['/']),
        paths::normal(a) ==> component_before(seq!['.'], a) && component_before(seq!['.', '.'], a)
            && !component_before(a, seq!['.']) && !component_before(a, seq!['.', '.']),
        component_before(seq!['.'], seq!['.', '.']),
        !component_before(seq!['.', '.'], seq!['.']),
        path_before(a, b) == list_before(paths::components(a), paths::components(b)),
        list_before(p, q) <==> (p != q && p.is_prefix_of(q)) || exists|k: int|
            0 <= k < p.len() && k < q.len() && #[trigger] p.take(k) == q.take(k) && p[k] != q[k]
                && component_before(p[k], q[k]),
{
    assert(seq!['/'][0] == '/');
    assert(seq!['.'][0] == '.');
    assert(seq!['.', '.'].len() == 2 && seq!['.'].len() == 1);
    lemma_order_of_lists(p, q);
}

#[verifier::rlimit(40)]
#[verifier::spinoff_prover]
proof fn lemma_order_of_lists(p: Seq<Seq<char>>, q: Seq<Seq<char>>)
    ensures
        list_before(p, q) <==> (p != q && p.is_prefix_of(q)) || exists|k: int|
            0 <= k < p.len() && k < q.len() && #[trigger] p.take(k) == q.take(k) && p[k] != q[k]
                && component_before(p[k], q[k]),
    decreases p.len(),
{
    if q.len() == 0 {
        if p.is_prefix_of(q) {
            assert(p =~= q);
        }
    } else if p.len() == 0 {
        assert(p.is_prefix_of(q));
    } else if p[0] != q[0] {
        assert(!p.is_prefix_of(q));
        assert(p.take(0) =~= q.take(0));
        if exists|k: int|
            0 <= k < p.len() && k < q.len() && #[trigger] p.take(k) == q.take(k) && p[k] != q[k]
                && component_before(p[k], q[k]) {
            let k = choose|k: int|
                0 <= k < p.len() && k < q.len() && #[trigger] p.take(k) == q.take(k) && p[k] != q[k]
                    && component_before(p[k], q[k]);
            if k > 0 {
                assert(p.take(k)[0] == q.take(k)[0]);
            }
        }
    } else {
        let x = p.drop_first();
        let y = q.drop_first();
        lemma_order_of_lists(x, y);
        assert(p =~= seq![p[0]] + x);
        assert(q =~= seq![q[0]] + y);
        if x.is_prefix_of(y) {
            assert(y =~= x + y.skip(x.len() as int));
            assert(p =~= q.take(p.len() as int));
            if p == q {
                assert(x =~= y);
            }
        }
        if p.is_prefix_of(q) {
            assert(x =~= y.take(x.len() as int)) by {
                assert forall|i: int| 0 <= i < x.len() implies x[i] == y[i] by {
                    assert(p[i + 1] == q.take(p.len() as int)[i + 1]);
                }
            }
            if x == y {
                assert(p =~= q);
            }
        }
        if exists|k: int|
            0 <= k < x.len() && k < y.len() && #[trigger] x.take(k) == y.take(k) && x[k] != y[k]
                && component_before(x[k], y[k]) {
            let k = choose|k: int|
                0 <= k < x.len() && k < y.len() && #[trigger] x.take(k) == y.take(k) && x[k] != y[k]
                    && component_before(x[k], y[k]);
            assert(p.take(k + 1) =~= seq![p[0]] + x.take(k));
            assert(q.take(k + 1) =~= seq![q[0]] + y.take(k));
            assert(p.take(k + 1) == q.take(k + 1));
        }
        if exists|k: int|
            0 <= k < p.len() && k < q.len() && #[trigger] p.take(k) == q.take(k) && p[k] != q[k]
                && component_before(p[k], q[k]) {
            let k = choose|k: int|
                0 <= k < p.len() && k < q.len() && #[trigger] p.take(k) == q.take(k) && p[k] != q[k]
                    && component_before(p[k], q[k]);
            assert(x.take(k - 1) =~= p.take(k).drop_first());
            assert(y.take(k - 1) =~= q.take(k).drop_first());
            assert(x.take(k - 1) == y.take(k - 1));
        }
    }
}

} // verus!
