//! POSIX paths as text.
//!
//! A path is read the way `std::path::Path` reads it on Unix: as components
//! separated by `/`, where repeated separators, trailing separators and `.`
//! count for nothing, except for a leading `/` and a leading `.`. Those two
//! stand in the list of components as `/` and `.`.
use vstd::prelude::*;

use crate::text;

verus! {

// ---------------------------------------------------------------------------
// Components
// ---------------------------------------------------------------------------

/// Whether the piece `seg` between two separators is no component.
pub open spec fn skipped(seg: Seq<char>) -> bool {
    seg.len() == 0 || seg == seq!['.']
}

/// What follows the first separator of `s`; nothing where it has none.
pub open spec fn after_slash(s: Seq<char>) -> Seq<char> {
    let k = text::first_of(s, '/') as int;
    if k < s.len() {
        s.skip(k + 1)
    } else {
        Seq::empty()
    }
}

/// What precedes the first separator of `s`.
pub open spec fn before_slash(s: Seq<char>) -> Seq<char> {
    s.take(text::first_of(s, '/') as int)
}

/// The components of `s`, read as the part of a path after its start.
pub open spec fn body(s: Seq<char>) -> Seq<Seq<char>>
    decreases s.len(),
{
    if s.len() == 0 {
        Seq::empty()
    } else if skipped(before_slash(s)) {
        body(after_slash(s))
    } else {
        seq![before_slash(s)] + body(after_slash(s))
    }
}

/// Whether the path `s` starts with a component of its own kind: the root `/`,
/// or `.` as its first piece.
pub open spec fn has_start(s: Seq<char>) -> bool {
    s.len() > 0 && (s[0] == '/' || (s[0] == '.' && (s.len() == 1 || s[1] == '/')))
}

/// Whether the path `s` starts at the root of the file system.
pub open spec fn absolute(s: Seq<char>) -> bool {
    s.len() > 0 && s[0] == '/'
}

/// The components of the path `s`.
pub open spec fn components(s: Seq<char>) -> Seq<Seq<char>> {
    if has_start(s) {
        seq![s.take(1)] + body(s.skip(1))
    } else {
        body(s)
    }
}

fn is_skipped(v: &Vec<char>, from: usize, to: usize) -> (r: bool)
    requires
        from <= to <= v@.len(),
    ensures
        r == skipped(v@.subrange(from as int, to as int)),
{
    let ghost seg = v@.subrange(from as int, to as int);
    if from == to {
        return true;
    }
    let r = to - from == 1 && v[from] == '.';
    proof {
        assert(seg[0] == v@[from as int]);
        if r {
            assert(seg == seq!['.']);
        } else if seg == seq!['.'] {
            assert(seg.len() == 1);
        }
    }
    r
}

fn starts_specially(v: &Vec<char>) -> (r: bool)
    ensures
        r == has_start(v@),
{
    v.len() > 0 && (v[0] == '/' || (v[0] == '.' && (v.len() == 1 || v[1] == '/')))
}

/// The components of the path `s`.
pub fn split_path(s: &str) -> (r: Vec<String>)
    ensures
        text::texts(r@) == components(s@),
{
    let v = text::chars_of(s);
    let mut r: Vec<String> = Vec::new();
    let mut i: usize = 0;
    proof {
        assert(v@.skip(0) == v@);
    }
    if starts_specially(&v) {
        r.push(text::text_of(&v, 0, 1));
        i = 1;
        proof {
            assert(v@.subrange(0, 1) == v@.take(1));
            assert(text::texts(r@) == seq![v@.take(1)]);
        }
    } else {
        proof {
            assert(text::texts(r@) + body(v@) == body(v@));
        }
    }
    while i < v.len()
        invariant
            v@ == s@,
            i <= v@.len(),
            text::texts(r@) + body(v@.skip(i as int)) == components(s@),
        decreases v@.len() - i,
    {
        let j = text::first_at(&v, i, '/');
        let ghost rest = v@.skip(i as int);
        let ghost before = r@;
        proof {
            assert(before_slash(rest) == v@.subrange(i as int, j as int));
            if j < v@.len() {
                assert(after_slash(rest) == v@.skip(j + 1));
            } else {
                assert(after_slash(rest) == v@.skip(j as int));
            }
        }
        if !is_skipped(&v, i, j) {
            r.push(text::text_of(&v, i, j));
            proof {
                let seg = before_slash(rest);
                let tail = body(after_slash(rest));
                assert(text::texts(r@) + tail =~= text::texts(before) + (seq![seg] + tail));
            }
        }
        i = if j < v.len() {
            j + 1
        } else {
            j
        };
    }
    proof {
        assert(v@.skip(i as int).len() == 0);
        assert(text::texts(r@) =~= components(s@));
    }
    r
}

// ---------------------------------------------------------------------------
// Names
// ---------------------------------------------------------------------------

/// Whether the component `c` names an entry of a directory.
pub open spec fn normal(c: Seq<char>) -> bool {
    c != seq!['/'] && c != seq!['.'] && c != seq!['.', '.']
}

/// The last component, when it names an entry.
pub open spec fn name_of(s: Seq<char>) -> Option<Seq<char>> {
    let c = components(s);
    if c.len() > 0 && normal(c.last()) {
        Some(c.last())
    } else {
        None
    }
}

/// What follows the last dot of a file name, unless there is none or it is the
/// first character.
pub open spec fn extension_of(name: Seq<char>) -> Option<Seq<char>> {
    match text::rfind(name, '.') {
        Some(k) => if k > 0 {
            Some(name.skip((k + 1) as int))
        } else {
            None
        },
        None => None,
    }
}

/// The extension of the path `s`.
pub open spec fn path_extension(s: Seq<char>) -> Option<Seq<char>> {
    match name_of(s) {
        Some(name) => extension_of(name),
        None => None,
    }
}

/// Views of an optional string.
pub open spec fn opt_text(s: Option<String>) -> Option<Seq<char>> {
    match s {
        Some(t) => Some(t@),
        None => None,
    }
}

fn is_normal(c: &str) -> (r: bool)
    ensures
        r == normal(c@),
{
    proof {
        reveal_strlit("/");
        reveal_strlit(".");
        reveal_strlit("..");
        assert("/"@ == seq!['/']);
        assert("."@ == seq!['.']);
        assert(".."@ == seq!['.', '.']);
    }
    !text::str_eq(c, "/") && !text::str_eq(c, ".") && !text::str_eq(c, "..")
}

/// The file name of a path: its last component, if it names an entry.
pub fn file_name(s: &str) -> (r: Option<String>)
    ensures
        opt_text(r) == name_of(s@),
{
    let mut parts = split_path(s);
    let ghost all = parts@;
    match parts.pop() {
        Some(last) => {
            proof {
                assert(text::texts(all).last() == last@);
            }
            if is_normal(last.as_str()) {
                Some(last)
            } else {
                None
            }
        },
        None => None,
    }
}

/// The extension of a path: what follows the last dot of its file name, unless
/// that dot is the first character.
pub fn extension(s: &str) -> (r: Option<String>)
    ensures
        opt_text(r) == path_extension(s@),
{
    match file_name(s) {
        Some(name) => {
            let v = text::chars_of(name.as_str());
            proof {
                assert(v@.subrange(0, v@.len() as int) == v@);
            }
            match text::rfind_at(&v, 0, v.len(), '.') {
                Some(k) => {
                    if k > 0 {
                        let ext = text::text_of(&v, k + 1, v.len());
                        proof {
                            assert(ext@ == name@.skip(k + 1));
                        }
                        Some(ext)
                    } else {
                        None
                    }
                },
                None => None,
            }
        },
        None => None,
    }
}

/// Whether the path names an entry of the directory `dir`.
pub open spec fn lies_in(path: Seq<char>, dir: Seq<char>) -> bool {
    name_of(path) is Some && components(path).drop_last() == components(dir)
}

/// Whether the path names an entry of the directory `dir`.
pub fn is_in(path: &str, dir: &str) -> (r: bool)
    ensures
        r == lies_in(path@, dir@),
{
    let p = split_path(path);
    let d = split_path(dir);
    let ghost c = components(path@);
    let n: usize = p.len();
    proof {
        assert(text::texts(p@) == c);
        assert(n > 0 ==> p@[n - 1]@ == c.last());
        assert(components(dir@).len() == d@.len());
    }
    if n == 0 || !is_normal(p[n - 1].as_str()) || d.len() != n - 1 {
        return false;
    }
    let r = begins_with(&p, &d);
    proof {
        assert(c.take(d@.len() as int) =~= c.drop_last());
    }
    r
}

// ---------------------------------------------------------------------------
// Prefixes
// ---------------------------------------------------------------------------

/// Whether the components of `base` are the first ones of `path`.
pub open spec fn within(path: Seq<char>, base: Seq<char>) -> bool {
    let p = components(path);
    let b = components(base);
    b.len() <= p.len() && p.take(b.len() as int) == b
}

fn begins_with(p: &Vec<String>, b: &Vec<String>) -> (r: bool)
    ensures
        r == (b@.len() <= p@.len() && text::texts(p@).take(b@.len() as int) == text::texts(b@)),
{
    if b.len() > p.len() {
        return false;
    }
    let mut i: usize = 0;
    while i < b.len()
        invariant
            i <= b@.len() <= p@.len(),
            forall|k: int| 0 <= k < i ==> (#[trigger] p@[k])@ == b@[k]@,
        decreases b@.len() - i,
    {
        if !text::str_eq(p[i].as_str(), b[i].as_str()) {
            proof {
                assert(text::texts(p@).take(b@.len() as int)[i as int] == p@[i as int]@);
                assert(text::texts(b@)[i as int] == b@[i as int]@);
            }
            return false;
        }
        i = i + 1;
    }
    proof {
        assert(text::texts(p@).take(b@.len() as int) =~= text::texts(b@));
    }
    true
}

/// Whether `base` is `path` or an ancestor of it, component by component.
pub fn starts_with(path: &str, base: &str) -> (r: bool)
    ensures
        r == within(path@, base@),
{
    let p = split_path(path);
    let b = split_path(base);
    proof {
        assert(text::texts(p@).len() == p@.len());
        assert(text::texts(b@).len() == b@.len());
    }
    begins_with(&p, &b)
}

/// Whether two paths have the same components.
pub fn same_path(a: &str, b: &str) -> (r: bool)
    ensures
        r == (components(a@) == components(b@)),
{
    let p = split_path(a);
    let q = split_path(b);
    proof {
        assert(text::texts(p@).len() == p@.len());
        assert(text::texts(q@).len() == q@.len());
        assert(text::texts(p@).take(p@.len() as int) == text::texts(p@));
    }
    p.len() == q.len() && begins_with(&p, &q)
}

/// What is left of `s` once `n` components are read off it.
pub open spec fn after_components(s: Seq<char>, n: nat) -> Seq<char>
    decreases s.len(),
{
    if n == 0 || s.len() == 0 {
        s
    } else if skipped(before_slash(s)) {
        after_components(after_slash(s), n)
    } else {
        after_components(after_slash(s), (n - 1) as nat)
    }
}

/// `s` without the leading pieces that are no component.
pub open spec fn trim_left(s: Seq<char>) -> Seq<char>
    decreases s.len(),
{
    if s.len() > 0 && skipped(before_slash(s)) {
        trim_left(after_slash(s))
    } else {
        s
    }
}

/// `s` without the trailing pieces that are no component, its first `min`
/// characters left alone.
pub open spec fn trim_right(s: Seq<char>, min: nat) -> Seq<char>
    decreases s.len(),
{
    if s.len() <= min {
        s
    } else {
        let t = s.skip(min as int);
        match text::rfind(t, '/') {
            Some(k) => if k < t.len() && skipped(t.skip((k + 1) as int)) {
                trim_right(s.take((min + k) as int), min)
            } else {
                s
            },
            None => if skipped(t) {
                s.take(min as int)
            } else {
                s
            },
        }
    }
}

/// The text of `path` after its first `n` components.
pub open spec fn tail_text(path: Seq<char>, n: nat) -> Seq<char> {
    if n == 0 {
        trim_right(path, if has_start(path) { 1 } else { 0 })
    } else if has_start(path) {
        trim_right(trim_left(after_components(path.skip(1), (n - 1) as nat)), 0)
    } else {
        trim_right(trim_left(after_components(path, n)), 0)
    }
}

/// `path` relative to `base`, when it lies within it.
pub open spec fn relative(path: Seq<char>, base: Seq<char>) -> Option<Seq<char>> {
    if within(path, base) {
        Some(tail_text(path, components(base).len()))
    } else {
        None
    }
}

/// Where `v[from..to]` ends once its trailing pieces that are no component are
/// left out, its first `min` characters left alone.
fn trimmed_end(v: &Vec<char>, from: usize, to: usize, min: usize) -> (end: usize)
    requires
        from <= to <= v@.len(),
        from + min <= to || min == 0,
    ensures
        from <= end <= to,
        v@.subrange(from as int, end as int) == trim_right(
            v@.subrange(from as int, to as int),
            min as nat,
        ),
{
    let mut end: usize = to;
    while end - from > min
        invariant
            from <= end <= to <= v@.len(),
            from + min <= end || min == 0,
            trim_right(v@.subrange(from as int, end as int), min as nat) == trim_right(
                v@.subrange(from as int, to as int),
                min as nat,
            ),
        decreases end,
    {
        let ghost s = v@.subrange(from as int, end as int);
        let ghost t = s.skip(min as int);
        proof {
            assert(t == v@.subrange(from + min, end as int));
        }
        match text::rfind_at(v, from + min, end, '/') {
            Some(k) => {
                proof {
                    assert(t.skip(k + 1) == v@.subrange(from + min + k + 1, end as int));
                    assert(s.take((min + k) as int) == v@.subrange(from as int, from + min + k));
                }
                if is_skipped(v, from + min + k + 1, end) {
                    end = from + min + k;
                } else {
                    return end;
                }
            },
            None => {
                if is_skipped(v, from + min, end) {
                    proof {
                        assert(s.take(min as int) == v@.subrange(from as int, from + min));
                    }
                    return from + min;
                }
                return end;
            },
        }
    }
    end
}

/// Where `v` stands once `n` components are read off it from `from` on.
fn skip_components(v: &Vec<char>, from: usize, n: usize) -> (i: usize)
    requires
        from <= v@.len(),
    ensures
        from <= i <= v@.len(),
        v@.skip(i as int) == after_components(v@.skip(from as int), n as nat),
{
    let mut i: usize = from;
    let mut left: usize = n;
    while left > 0 && i < v.len()
        invariant
            from <= i <= v@.len(),
            after_components(v@.skip(i as int), left as nat) == after_components(
                v@.skip(from as int),
                n as nat,
            ),
        decreases v@.len() - i,
    {
        let j = text::first_at(v, i, '/');
        proof {
            lemma_next_piece(v@, i as int, j as int);
        }
        if !is_skipped(v, i, j) {
            left = left - 1;
        }
        i = if j < v.len() {
            j + 1
        } else {
            j
        };
    }
    i
}

/// Where `v` stands from `from` on once the pieces that are no component are left
/// out.
fn skip_pieces(v: &Vec<char>, from: usize) -> (i: usize)
    requires
        from <= v@.len(),
    ensures
        from <= i <= v@.len(),
        v@.skip(i as int) == trim_left(v@.skip(from as int)),
{
    let mut i: usize = from;
    while i < v.len()
        invariant
            from <= i <= v@.len(),
            trim_left(v@.skip(i as int)) == trim_left(v@.skip(from as int)),
        decreases v@.len() - i,
    {
        let j = text::first_at(v, i, '/');
        proof {
            lemma_next_piece(v@, i as int, j as int);
        }
        if !is_skipped(v, i, j) {
            return i;
        }
        i = if j < v.len() {
            j + 1
        } else {
            j
        };
    }
    i
}

/// The first piece of what is left from `i`, when its separator stands at `j`.
proof fn lemma_next_piece(s: Seq<char>, i: int, j: int)
    requires
        0 <= i <= j <= s.len(),
        text::first_of(s.skip(i), '/') == j - i,
    ensures
        before_slash(s.skip(i)) == s.subrange(i, j),
        after_slash(s.skip(i)) == if j < s.len() {
            s.skip(j + 1)
        } else {
            s.skip(j)
        },
{
    assert(before_slash(s.skip(i)) =~= s.subrange(i, j));
    if j < s.len() {
        assert(s.skip(i).skip(j - i + 1) =~= s.skip(j + 1));
    } else {
        assert(after_slash(s.skip(i)) =~= s.skip(j));
    }
}

/// `path` relative to `base`, or `None` where it does not lie within it.
pub fn strip_prefix(path: &str, base: &str) -> (r: Option<String>)
    ensures
        opt_text(r) == relative(path@, base@),
{
    let p = split_path(path);
    let b = split_path(base);
    proof {
        assert(text::texts(p@).len() == p@.len());
        assert(text::texts(b@).len() == b@.len());
    }
    if !begins_with(&p, &b) {
        return None;
    }
    let v = text::chars_of(path);
    let n: usize = b.len();
    let special = starts_specially(&v);
    proof {
        assert(v@.skip(0) == v@);
        assert(v@.subrange(0, v@.len() as int) == v@);
    }
    if n == 0 {
        let end = trimmed_end(&v, 0, v.len(), if special { 1 } else { 0 });
        return Some(text::text_of(&v, 0, end));
    }
    let start: usize = if special {
        skip_components(&v, 1, n - 1)
    } else {
        skip_components(&v, 0, n)
    };
    let from = skip_pieces(&v, start);
    let end = trimmed_end(&v, from, v.len(), 0);
    proof {
        assert(v@.subrange(from as int, v@.len() as int) == v@.skip(from as int));
    }
    Some(text::text_of(&v, from, end))
}

/// `base` with `name` below it.
pub open spec fn joined(base: Seq<char>, name: Seq<char>) -> Seq<char> {
    if base.len() == 0 || base.last() == '/' {
        base + name
    } else {
        base + seq!['/'] + name
    }
}

/// `base` with the relative path `name` below it.
pub fn join(base: &str, name: &str) -> (r: String)
    ensures
        r@ == joined(base@, name@),
{
    let v = text::chars_of(base);
    let mut r = text::text_of(&v, 0, v.len());
    proof {
        assert(r@ == base@);
    }
    if v.len() > 0 && v[v.len() - 1] != '/' {
        r.push('/');
        proof {
            assert(r@ == base@ + seq!['/']);
        }
    }
    r.append(name);
    r
}

// ---------------------------------------------------------------------------
// Laws
// ---------------------------------------------------------------------------

/// The components of two texts with a separator between them.
pub proof fn lemma_body_concat(a: Seq<char>, b: Seq<char>)
    ensures
        body(a + seq!['/'] + b) == body(a) + body(b),
    decreases a.len(),
{
    let s = a + seq!['/'] + b;
    text::lemma_first_of(a, '/');
    let k = text::first_of(a, '/') as int;
    assert(s.skip(0) == s);
    assert forall|i: int| 0 <= i < k implies #[trigger] s[i] != '/' by {
        assert(s[i] == a[i]);
    }
    assert(k < a.len() ==> s[k] == a[k]);
    assert(s[a.len() as int] == '/');
    text::lemma_first_of_is(s, '/', 0, k);
    assert(before_slash(s) =~= before_slash(a));
    if k < a.len() {
        assert(after_slash(s) =~= after_slash(a) + seq!['/'] + b);
        lemma_body_concat(after_slash(a), b);
        assert(body(s) =~= body(a) + body(b));
    } else {
        assert(after_slash(s) =~= b);
        if a.len() > 0 {
            assert(body(after_slash(a)) =~= Seq::<Seq<char>>::empty());
        }
        assert(body(s) =~= body(a) + body(b));
    }
}

proof fn lemma_after_components(s: Seq<char>, n: nat)
    requires
        n <= body(s).len(),
    ensures
        body(after_components(s, n)) == body(s).skip(n as int),
    decreases s.len(),
{
    if n == 0 || s.len() == 0 {
        assert(body(s).skip(0) =~= body(s));
    } else if skipped(before_slash(s)) {
        lemma_after_components(after_slash(s), n);
    } else {
        lemma_after_components(after_slash(s), (n - 1) as nat);
        assert(body(s).skip(n as int) =~= body(after_slash(s)).skip(n - 1));
    }
}

proof fn lemma_trim_left(s: Seq<char>)
    ensures
        body(trim_left(s)) == body(s),
        trim_left(s).len() > 0 ==> trim_left(s)[0] != '/',
        trim_left(s).len() > 0 ==> !skipped(before_slash(trim_left(s))),
    decreases s.len(),
{
    if s.len() > 0 && skipped(before_slash(s)) {
        lemma_trim_left(after_slash(s));
    } else if s.len() > 0 {
        assert(s[0] == '/' ==> before_slash(s).len() == 0);
    }
}

/// The extension of a name follows its last dot, which is not the first character.
pub proof fn lemma_extension(name: Seq<char>)
    ensures
        match extension_of(name) {
            Some(ext) => {
                &&& ext.len() + 1 < name.len()
                &&& name[name.len() - ext.len() - 1] == '.'
                &&& name.skip(name.len() - ext.len()) == ext
                &&& !ext.contains('.')
            },
            None => true,
        },
{
    text::lemma_rfind_is_last(name, '.');
    lemma_rfind(name, '.');
    match extension_of(name) {
        Some(ext) => {
            let k = text::rfind(name, '.')->0;
            assert forall|i: int| 0 <= i < ext.len() implies #[trigger] ext[i] != '.' by {
                assert(ext[i] == name[k + 1 + i]);
            }
        },
        None => {},
    }
}

/// What follows the last dot of a name, which is not the first character, is its
/// extension.
pub proof fn lemma_extension_is(name: Seq<char>, ext: Seq<char>)
    requires
        ext.len() + 1 < name.len(),
        name[name.len() - ext.len() - 1] == '.',
        name.skip(name.len() - ext.len()) == ext,
        !ext.contains('.'),
    ensures
        extension_of(name) == Some(ext),
{
    let k = name.len() - ext.len() - 1;
    let a = name.take(k);
    assert(name =~= a + seq!['.'] + ext);
    assert forall|i: int| 0 <= i < ext.len() implies #[trigger] ext[i] != '.' by {
        assert(ext.contains(ext[i]));
    }
    text::lemma_rfind_after(a, ext, '.');
}

/// A path lies within another where its components begin with those of the other.
pub proof fn lemma_within(path: Seq<char>, base: Seq<char>)
    ensures
        within(path, base) <==> components(base).is_prefix_of(components(path)),
{
    let p = components(path);
    let b = components(base);
    if b.len() <= p.len() {
        assert(p.take(b.len() as int) =~= p.subrange(0, b.len() as int));
    }
}

proof fn lemma_rfind(s: Seq<char>, c: char)
    ensures
        match text::rfind(s, c) {
            Some(k) => k < s.len() && s[k as int] == c,
            None => true,
        },
    decreases s.len(),
{
    if s.len() > 0 && s.last() != c {
        lemma_rfind(s.drop_last(), c);
    }
}

proof fn lemma_skipped_body(s: Seq<char>)
    requires
        skipped(s),
    ensures
        body(s) == Seq::<Seq<char>>::empty(),
{
    if s.len() > 0 {
        text::lemma_first_of(s, '/');
        assert(text::first_of(s, '/') == 1);
        assert(before_slash(s) =~= s);
        assert(body(after_slash(s)) =~= Seq::<Seq<char>>::empty());
    }
}

proof fn lemma_trim_right(s: Seq<char>)
    ensures
        body(trim_right(s, 0)) == body(s),
        trim_right(s, 0).len() <= s.len(),
        trim_right(s, 0) == s.take(trim_right(s, 0).len() as int),
    decreases s.len(),
{
    if s.len() > 0 {
        assert(s.skip(0) =~= s);
        lemma_rfind(s, '/');
        match text::rfind(s, '/') {
            Some(k) => {
                let tail = s.skip((k + 1) as int);
                if skipped(tail) {
                    let head = s.take(k as int);
                    lemma_trim_right(head);
                    assert(s =~= head + seq!['/'] + tail);
                    lemma_body_concat(head, tail);
                    lemma_skipped_body(tail);
                    assert(body(s) =~= body(head));
                    assert(trim_right(s, 0) == trim_right(head, 0));
                    assert(head.take(trim_right(head, 0).len() as int) =~= s.take(
                        trim_right(head, 0).len() as int,
                    ));
                } else {
                    assert(s.take(s.len() as int) =~= s);
                }
            },
            None => {
                if skipped(s) {
                    lemma_skipped_body(s);
                    assert(s.take(0) =~= Seq::<char>::empty());
                    assert(body(s.take(0)) =~= Seq::<Seq<char>>::empty());
                } else {
                    assert(s.take(s.len() as int) =~= s);
                }
            },
        }
    } else {
        assert(s.take(0) =~= s);
    }
}

/// A path within a base that has components is the base followed by the relative
/// path, component by component, and the relative path starts with neither `/` nor
/// `./`.
pub proof fn law_relative_components(path: Seq<char>, base: Seq<char>)
    requires
        within(path, base),
        components(base).len() > 0,
    ensures
        ({
            let rel = relative(path, base)->0;
            &&& components(path) == components(base) + body(rel)
            &&& rel.len() > 0 ==> rel[0] != '/'
            &&& !text::has_prefix(rel, seq!['.', '/'])
        }),
{
    let n = components(base).len();
    let (text, m) = if has_start(path) {
        (path.skip(1), (n - 1) as nat)
    } else {
        (path, n)
    };
    lemma_after_components(text, m);
    let left = after_components(text, m);
    lemma_trim_left(left);
    let mid = trim_left(left);
    lemma_trim_right(mid);
    let rel = trim_right(mid, 0);
    assert(relative(path, base) == Some(rel));
    assert(body(rel) == body(text).skip(m as int));
    assert(components(path) =~= components(path).take(n as int) + components(path).skip(n as int));
    if has_start(path) {
        assert(components(path).skip(n as int) =~= body(text).skip(m as int));
    }
    if rel.len() > 0 {
        assert(rel[0] == mid[0]);
    }
    if text::has_prefix(rel, seq!['.', '/']) {
        assert(rel.take(2)[0] == mid[0]);
        assert(rel.take(2)[1] == mid[1]);
        text::lemma_first_of(mid, '/');
        assert(text::first_of(mid, '/') == 1);
        assert(before_slash(mid) =~= seq!['.']);
    }
}

proof fn lemma_trim_left_empty(s: Seq<char>)
    requires
        body(s).len() == 0,
    ensures
        trim_left(s).len() == 0,
    decreases s.len(),
{
    if s.len() > 0 {
        assert(skipped(before_slash(s)));
        lemma_trim_left_empty(after_slash(s));
    }
}

/// A path relative to itself is empty.
pub proof fn law_relative_to_itself(path: Seq<char>)
    ensures
        relative(path, path) == Some(Seq::<char>::empty()),
{
    let c = components(path);
    let n = c.len();
    assert(c.take(n as int) =~= c);
    if n == 0 {
        if path.len() > 0 {
            text::lemma_first_of(path, '/');
            let piece = before_slash(path);
            assert(piece.len() > 0);
            assert(piece[0] == path[0]);
            assert(skipped(piece));
            assert(piece.len() == 1 && path[0] == '.');
            assert(false);
        }
        assert(path =~= Seq::<char>::empty());
    } else {
        let (text, m) = if has_start(path) {
            (path.skip(1), (n - 1) as nat)
        } else {
            (path, n)
        };
        lemma_after_components(text, m);
        let left = after_components(text, m);
        assert(body(left).len() == 0);
        lemma_trim_left_empty(left);
        assert(trim_right(trim_left(left), 0) =~= Seq::<char>::empty());
    }
}

/// A name is the one component of itself, and a path with a name below it has one
/// component more.
pub proof fn law_components_of_an_entry(base: Seq<char>, name: Seq<char>)
    requires
        base.len() > 0,
        name.len() > 0,
        name != seq!['.'],
        !name.contains('/'),
    ensures
        components(name) == seq![name],
        components(base + seq!['/'] + name) == components(base).push(name),
        components(joined(base, name)) == components(base).push(name),
        name != seq!['.', '.'] ==> name_of(base + seq!['/'] + name) == Some(name),
        components(seq!['/']) == seq![seq!['/']],
{
    assert forall|i: int| 0 <= i < name.len() implies #[trigger] name[i] != '/' by {
        assert(name.contains(name[i]));
    }
    lemma_body_of_name(name);
    if name[0] == '.' {
        if name.len() == 1 {
            assert(name =~= seq!['.']);
        }
    }
    let s = base + seq!['/'] + name;
    let none = Seq::<char>::empty();
    assert(seq!['/'].skip(1) =~= none);
    assert(seq!['/'].take(1) =~= seq!['/']);
    assert(components(seq!['/']) =~= seq![seq!['/']]);
    lemma_body_concat(base, name);
    lemma_body_concat(base.skip(1), name);
    assert(s.skip(1) =~= base.skip(1) + seq!['/'] + name);
    assert(s.take(1) =~= base.take(1));
    assert(has_start(s) == has_start(base));
    assert(components(s) =~= components(base).push(name));
    if base.last() == '/' {
        let t = base + name;
        assert(has_start(t) == has_start(base));
        assert(t.take(1) =~= base.take(1));
        let rest = if has_start(base) {
            base.skip(1)
        } else {
            base
        };
        assert(has_start(base) ==> t.skip(1) =~= rest + name);
        if rest.len() == 0 {
            assert(rest + name =~= name);
        } else {
            let head = rest.drop_last();
            assert(rest =~= head + seq!['/'] + none);
            assert(rest + name =~= head + seq!['/'] + name);
            lemma_body_concat(head, name);
            lemma_body_concat(head, none);
            assert(body(none) =~= Seq::<Seq<char>>::empty());
            assert(body(rest) =~= body(head));
        }
        assert(body(rest + name) =~= body(rest).push(name));
        assert(components(t) =~= components(base).push(name));
    }
}

proof fn lemma_body_of_name(name: Seq<char>)
    requires
        name.len() > 0,
        name != seq!['.'],
        forall|i: int| 0 <= i < name.len() ==> #[trigger] name[i] != '/',
    ensures
        body(name) == seq![name],
{
    assert(name.skip(0) =~= name);
    text::lemma_first_of_is(name, '/', 0, name.len() as int);
    assert(before_slash(name) =~= name);
    assert(body(Seq::<char>::empty()) =~= Seq::<Seq<char>>::empty());
    assert(body(name) =~= seq![name]);
}

/// Whether a text is that of a path below another: it neither starts nor ends with `/`,
/// and neither its first piece nor its last is `.`.
pub open spec fn plain_relative(rel: Seq<char>) -> bool {
    &&& rel.len() > 0
    &&& rel[0] != '/'
    &&& rel.last() != '/'
    &&& rel != seq!['.']
    &&& !text::has_prefix(rel, seq!['.', '/'])
    &&& !text::has_suffix(rel, seq!['/', '.'])
}

/// What stands below a base is given back as it was written.
pub proof fn law_relative_text(base: Seq<char>, rel: Seq<char>)
    requires
        base.len() > 0,
        components(base).len() > 0,
        plain_relative(rel),
    ensures
        relative(base + seq!['/'] + rel, base) == Some(rel),
{
    let path = base + seq!['/'] + rel;
    lemma_body_concat(base, rel);
    lemma_body_concat(base.skip(1), rel);
    assert(path.skip(1) =~= base.skip(1) + seq!['/'] + rel);
    assert(path.take(1) =~= base.take(1));
    assert(has_start(path) == has_start(base));
    assert(components(path) =~= components(base) + body(rel));
    assert(components(path).take(components(base).len() as int) =~= components(base));
    lemma_first_piece(rel);
    lemma_left_over(base, rel);
    lemma_left_over(base.skip(1), rel);
    lemma_nothing_to_trim(rel);
}

proof fn lemma_first_piece(rel: Seq<char>)
    requires
        plain_relative(rel),
    ensures
        !skipped(before_slash(rel)),
{
    text::lemma_first_of(rel, '/');
    let k = text::first_of(rel, '/') as int;
    let piece = before_slash(rel);
    if piece == seq!['.'] {
        assert(piece.len() == k);
        assert(piece[0] == rel[0]);
        if rel.len() == 1 {
            assert(rel =~= seq!['.']);
        } else {
            assert(rel.take(2) =~= seq!['.', '/']);
        }
    }
}

proof fn lemma_nothing_to_trim(rel: Seq<char>)
    requires
        plain_relative(rel),
    ensures
        trim_right(rel, 0) == rel,
{
    text::lemma_rfind_is_last(rel, '/');
    let t = rel.skip(0);
    assert(t =~= rel);
    match text::rfind(rel, '/') {
        Some(k) => {
            let piece = rel.skip((k + 1) as int);
            if piece.len() == 0 {
                assert(rel.last() == rel[k as int]);
            }
            if piece == seq!['.'] {
                assert(piece.len() == 1);
                assert(rel.skip(rel.len() - 2) =~= seq!['/', '.']) by {
                    assert(piece[0] == rel[k as int + 1]);
                }
            }
        },
        None => {
            if skipped(rel) {
                assert(rel.len() == 0 || rel == seq!['.']);
            }
        },
    }
}

/// What is left behind the components of `a`, the pieces that are no component left out.
proof fn lemma_left_over(a: Seq<char>, rel: Seq<char>)
    requires
        rel.len() > 0,
        !skipped(before_slash(rel)),
    ensures
        trim_left(after_components(a + seq!['/'] + rel, body(a).len())) == rel,
    decreases a.len(),
{
    let s = a + seq!['/'] + rel;
    text::lemma_first_of(a, '/');
    let k = text::first_of(a, '/') as int;
    assert(s.skip(0) == s);
    assert forall|i: int| 0 <= i < k implies #[trigger] s[i] != '/' by {
        assert(s[i] == a[i]);
    }
    assert(k < a.len() ==> s[k] == a[k]);
    assert(s[a.len() as int] == '/');
    text::lemma_first_of_is(s, '/', 0, k);
    assert(before_slash(s) =~= before_slash(a));
    assert(body(Seq::<char>::empty()).len() == 0);
    if k < a.len() {
        assert(after_slash(s) =~= after_slash(a) + seq!['/'] + rel);
        let rest = after_slash(a) + seq!['/'] + rel;
        lemma_left_over(after_slash(a), rel);
        if body(a).len() == 0 {
            assert(after_components(s, 0) == s);
            assert(after_components(rest, 0) == rest);
            assert(trim_left(s) == trim_left(rest));
        } else if skipped(before_slash(a)) {
            assert(after_components(s, body(a).len()) == after_components(rest, body(a).len()));
        } else {
            let n = (body(a).len() - 1) as nat;
            assert(body(after_slash(a)).len() == n);
            assert(after_components(s, n + 1) == after_components(rest, n));
        }
    } else {
        assert(after_slash(s) =~= rel);
        assert(after_slash(a) =~= Seq::<char>::empty());
        assert(trim_left(rel) == rel);
        assert(after_components(rel, 0) == rel);
        if a.len() == 0 || skipped(before_slash(a)) {
            assert(body(a).len() == 0);
            assert(skipped(before_slash(s)));
            assert(trim_left(s) == trim_left(rel));
        } else {
            assert(body(a).len() == 1);
            assert(after_components(s, 1) == after_components(rel, 0));
        }
    }
}

/// A path is an entry of a directory where it has the components of the directory and one
/// more, which is a name.
pub proof fn law_entries_of_a_directory(path: Seq<char>, dir: Seq<char>)
    ensures
        lies_in(path, dir) <==> components(path).len() == components(dir).len() + 1 && components(
            dir,
        ).is_prefix_of(components(path)) && components(path).last() != seq!['/'] && components(
            path,
        ).last() != seq!['.'] && components(path).last() != seq!['.', '.'],
{
    let p = components(path);
    let d = components(dir);
    if p.len() == d.len() + 1 {
        assert(p.drop_last() =~= p.take(d.len() as int));
    }
    if lies_in(path, dir) {
        assert(p.drop_last().len() == p.len() - 1);
    }
}

/// The empty path, the root, and a path that ends with `..` have no name.
pub proof fn law_paths_without_a_name(base: Seq<char>)
    requires
        base.len() > 0,
    ensures
        name_of(Seq::empty()) is None,
        name_of(seq!['/']) is None,
        name_of(base + seq!['/'] + seq!['.', '.']) is None,
{
    let up = seq!['.', '.'];
    assert(up.len() == 2 && seq!['.'].len() == 1);
    assert forall|i: int| 0 <= i < up.len() implies #[trigger] up[i] != '/' by {}
    assert(!up.contains('/'));
    law_components_of_an_entry(base, up);
    assert(body(Seq::<char>::empty()) =~= Seq::<Seq<char>>::empty());
}

} // verus!
