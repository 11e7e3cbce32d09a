//! The always-on service: which roots an event concerns, which roots to start and
//! stop, and what to collect.
use vstd::prelude::*;

use crate::daemon::{ChangeKind, Evt, Next, Waited};
use crate::ids::IdSet;
use crate::manifest::ManifestRow;
use crate::report::EXIT_WATCH_FAILED;
use crate::store::CollectionInfo;
use crate::walk::Ignore;
use crate::{daemon, manifest, paths, registry, steps, text, walk};

verus! {

// ---------------------------------------------------------------------------
// Routing
// ---------------------------------------------------------------------------

/// The number of components of a path.
pub open spec fn depth(path: Seq<char>) -> nat {
    paths::components(path).len()
}

/// Whether the root at `i` owns the path: no other one that the path lies in is
/// deeper, and none as deep comes later.
pub open spec fn owner(path: Seq<char>, roots: Seq<String>, i: int) -> bool {
    &&& 0 <= i < roots.len()
    &&& paths::within(path, roots[i]@)
    &&& forall|j: int|
        0 <= j < roots.len() && paths::within(path, #[trigger] roots[j]@) ==> {
            ||| depth(roots[j]@) < depth(roots[i]@)
            ||| depth(roots[j]@) == depth(roots[i]@) && j <= i
        }
}

/// The deepest root that the path lies in.
pub fn route<'a>(path: &str, roots: &'a [String]) -> (r: Option<&'a String>)
    ensures
        match r {
            Some(root) => exists|i: int| #[trigger]
                owner(path@, roots@, i) && *root == roots@[i],
            None => forall|j: int|
                0 <= j < roots@.len() ==> !paths::within(path@, #[trigger] roots@[j]@),
        },
{
    let mut best: Option<usize> = None;
    let mut deep: usize = 0;
    let mut i: usize = 0;
    while i < roots.len()
        invariant
            i <= roots@.len(),
            match best {
                Some(b) => {
                    &&& b < i
                    &&& paths::within(path@, roots@[b as int]@)
                    &&& deep == depth(roots@[b as int]@)
                    &&& forall|j: int|
                        0 <= j < i && paths::within(path@, #[trigger] roots@[j]@) ==> {
                            ||| depth(roots@[j]@) < depth(roots@[b as int]@)
                            ||| depth(roots@[j]@) == depth(roots@[b as int]@) && j <= b
                        }
                },
                None => forall|j: int|
                    0 <= j < i ==> !paths::within(path@, #[trigger] roots@[j]@),
            },
        decreases roots@.len() - i,
    {
        if paths::starts_with(path, roots[i].as_str()) {
            let parts = paths::split_path(roots[i].as_str());
            proof {
                assert(text::texts(parts@).len() == parts@.len());
            }
            let better = match best {
                Some(_) => parts.len() >= deep,
                None => true,
            };
            if better {
                best = Some(i);
                deep = parts.len();
            }
        }
        i = i + 1;
    }
    match best {
        Some(b) => {
            proof {
                assert(owner(path@, roots@, b as int));
            }
            Some(&roots[b])
        },
        None => None,
    }
}

/// The roots among the first `n` that the path lies in, in order.
pub open spec fn owners_below(path: Seq<char>, roots: Seq<String>, n: int) -> Seq<Seq<char>>
    decreases n,
{
    if n <= 0 {
        Seq::empty()
    } else if paths::within(path, roots[n - 1]@) {
        owners_below(path, roots, n - 1).push(roots[n - 1]@)
    } else {
        owners_below(path, roots, n - 1)
    }
}

/// The views of borrowed texts.
pub open spec fn borrowed(v: Seq<&String>) -> Seq<Seq<char>> {
    Seq::new(v.len(), |i: int| v[i]@)
}

/// All the roots that the path lies in, in order.
pub fn route_all<'a>(path: &str, roots: &'a [String]) -> (r: Vec<&'a String>)
    ensures
        borrowed(r@) == owners_below(path@, roots@, roots@.len() as int),
{
    let mut r: Vec<&'a String> = Vec::new();
    let mut i: usize = 0;
    proof {
        assert(borrowed(r@) =~= owners_below(path@, roots@, 0));
    }
    while i < roots.len()
        invariant
            i <= roots@.len(),
            borrowed(r@) == owners_below(path@, roots@, i as int),
        decreases roots@.len() - i,
    {
        if paths::starts_with(path, roots[i].as_str()) {
            let ghost before = r@;
            r.push(&roots[i]);
            proof {
                assert(borrowed(r@) =~= borrowed(before).push(roots@[i as int]@));
            }
        }
        i = i + 1;
    }
    r
}

/// Whether the path is the `.gitignore` of the root itself, not of a directory
/// below it.
pub open spec fn ignore_file_of(path: Seq<char>, root: Seq<char>) -> bool {
    paths::name_of(path) == Some(".gitignore"@) && paths::lies_in(path, root)
}

/// Whether the root at `i` is the first one whose `.gitignore` the path is.
pub open spec fn reloaded(path: Seq<char>, roots: Seq<String>, i: int) -> bool {
    &&& 0 <= i < roots.len()
    &&& ignore_file_of(path, roots[i]@)
    &&& forall|j: int| 0 <= j < i ==> !ignore_file_of(path, #[trigger] roots[j]@)
}

fn reload_index(path: &str, roots: &[String]) -> (r: Option<usize>)
    ensures
        match r {
            Some(i) => reloaded(path@, roots@, i as int),
            None => forall|j: int|
                0 <= j < roots@.len() ==> !ignore_file_of(path@, #[trigger] roots@[j]@),
        },
{
    match paths::file_name(path) {
        Some(name) => {
            if !text::str_eq(name.as_str(), ".gitignore") {
                return None;
            }
        },
        None => {
            return None;
        },
    }
    let mut i: usize = 0;
    while i < roots.len()
        invariant
            i <= roots@.len(),
            paths::name_of(path@) == Some(".gitignore"@),
            forall|j: int| 0 <= j < i ==> !ignore_file_of(path@, #[trigger] roots@[j]@),
        decreases roots@.len() - i,
    {
        if paths::is_in(path, roots[i].as_str()) {
            return Some(i);
        }
        i = i + 1;
    }
    None
}

/// The root whose own `.gitignore` the path is, if any. One further down does not
/// count: only a root's own file holds patterns.
pub fn gitignore_root<'a>(path: &str, roots: &'a [String]) -> (r: Option<&'a String>)
    ensures
        match r {
            Some(root) => exists|i: int| #[trigger]
                reloaded(path@, roots@, i) && *root == roots@[i],
            None => forall|j: int|
                0 <= j < roots@.len() ==> !ignore_file_of(path@, #[trigger] roots@[j]@),
        },
{
    match reload_index(path, roots) {
        Some(i) => Some(&roots[i]),
        None => None,
    }
}

/// The owner of a path is among the roots that it is routed to.
pub proof fn law_owner_is_routed(path: Seq<char>, roots: Seq<String>, i: int)
    requires
        owner(path, roots, i),
    ensures
        owners_below(path, roots, roots.len() as int).contains(roots[i]@),
{
    lemma_owners_contain(path, roots, roots.len() as int, i);
}

proof fn lemma_owners_contain(path: Seq<char>, roots: Seq<String>, n: int, i: int)
    requires
        0 <= i < n <= roots.len(),
        paths::within(path, roots[i]@),
    ensures
        owners_below(path, roots, n).contains(roots[i]@),
    decreases n,
{
    let all = owners_below(path, roots, n);
    let head = owners_below(path, roots, n - 1);
    if i == n - 1 {
        assert(all.last() == roots[i]@);
    } else {
        lemma_owners_contain(path, roots, n - 1, i);
        let j = choose|j: int| 0 <= j < head.len() && head[j] == roots[i]@;
        assert(all[j] == head[j]);
    }
}

/// A path has an owner exactly where it is routed anywhere.
pub proof fn law_routed_has_owner(path: Seq<char>, roots: Seq<String>)
    ensures
        owners_below(path, roots, roots.len() as int).len() > 0 <==> exists|i: int| #[trigger]
            owner(path, roots, i),
{
    lemma_some_owner(path, roots, roots.len() as int);
    if exists|i: int| #[trigger] owner(path, roots, i) {
        let i = choose|i: int| #[trigger] owner(path, roots, i);
        law_owner_is_routed(path, roots, i);
    }
}

/// Whether the root at `i` owns the path among the first `n`.
spec fn owner_below(path: Seq<char>, roots: Seq<String>, n: int, i: int) -> bool {
    owner(path, roots.take(n), i)
}

proof fn lemma_some_owner(path: Seq<char>, roots: Seq<String>, n: int)
    requires
        0 <= n <= roots.len(),
    ensures
        owners_below(path, roots, n).len() > 0 ==> exists|i: int| #[trigger]
            owner_below(path, roots, n, i),
        n == roots.len() && owners_below(path, roots, n).len() > 0 ==> exists|i: int| #[trigger]
            owner(path, roots, i),
    decreases n,
{
    if n > 0 {
        lemma_some_owner(path, roots, n - 1);
        let head = roots.take(n - 1);
        let all = roots.take(n);
        assert forall|j: int| 0 <= j < n - 1 implies #[trigger] all[j] == head[j] by {}
        assert(all[n - 1] == roots[n - 1]);
        let last_in = paths::within(path, roots[n - 1]@);
        if owners_below(path, roots, n - 1).len() > 0 {
            let i = choose|i: int| #[trigger] owner_below(path, roots, n - 1, i);
            assert(owner(path, head, i));
            if last_in && depth(roots[n - 1]@) >= depth(roots[i]@) {
                assert forall|j: int|
                    0 <= j < all.len() && paths::within(path, #[trigger] all[j]@) implies {
                    ||| depth(all[j]@) < depth(all[n - 1]@)
                    ||| depth(all[j]@) == depth(all[n - 1]@) && j <= n - 1
                } by {
                    if j < n - 1 {
                        assert(paths::within(path, head[j]@));
                    }
                }
                assert(owner_below(path, roots, n, n - 1));
            } else {
                assert forall|j: int|
                    0 <= j < all.len() && paths::within(path, #[trigger] all[j]@) implies {
                    ||| depth(all[j]@) < depth(all[i]@)
                    ||| depth(all[j]@) == depth(all[i]@) && j <= i
                } by {
                    if j < n - 1 {
                        assert(paths::within(path, head[j]@));
                    }
                }
                assert(owner_below(path, roots, n, i));
            }
        } else if last_in {
            lemma_no_owners(path, roots, n - 1);
            assert(owner_below(path, roots, n, n - 1));
        }
        if n == roots.len() && owners_below(path, roots, n).len() > 0 {
            assert(all =~= roots);
            let i = choose|i: int| #[trigger] owner_below(path, roots, n, i);
            assert(owner(path, roots, i));
        }
    }
}

proof fn lemma_no_owners(path: Seq<char>, roots: Seq<String>, n: int)
    requires
        0 <= n <= roots.len(),
        owners_below(path, roots, n).len() == 0,
    ensures
        forall|j: int| 0 <= j < n ==> !paths::within(path, #[trigger] roots[j]@),
    decreases n,
{
    if n > 0 {
        lemma_no_owners(path, roots, n - 1);
    }
}

// ---------------------------------------------------------------------------
// Starting and stopping
// ---------------------------------------------------------------------------

/// Whether one of the paths is the path `p`.
pub open spec fn among(list: Seq<Seq<char>>, p: Seq<char>) -> bool {
    exists|i: int|
        0 <= i < list.len() && paths::components(#[trigger] list[i]) == paths::components(p)
}

/// The paths of `list` that are not in `other`, in order.
pub open spec fn others_of(list: Seq<Seq<char>>, other: Seq<Seq<char>>) -> Seq<Seq<char>>
    decreases list.len(),
{
    if list.len() == 0 {
        Seq::empty()
    } else if among(other, list.last()) {
        others_of(list.drop_last(), other)
    } else {
        others_of(list.drop_last(), other).push(list.last())
    }
}

/// Whether the path is in the list.
fn is_among(list: &[String], p: &str) -> (r: bool)
    ensures
        r == among(text::texts(list@), p@),
{
    let ghost all = text::texts(list@);
    let mut i: usize = 0;
    while i < list.len()
        invariant
            i <= list@.len(),
            all == text::texts(list@),
            forall|k: int|
                0 <= k < i ==> paths::components(#[trigger] all[k]) != paths::components(p@),
        decreases list@.len() - i,
    {
        proof {
            assert(all[i as int] == list@[i as int]@);
        }
        if paths::same_path(list[i].as_str(), p) {
            return true;
        }
        i = i + 1;
    }
    false
}

fn others(list: &[String], other: &[String]) -> (r: Vec<String>)
    ensures
        text::texts(r@) == others_of(text::texts(list@), text::texts(other@)),
{
    let ghost all = text::texts(list@);
    let ghost rest = text::texts(other@);
    let mut r: Vec<String> = Vec::new();
    let mut i: usize = 0;
    proof {
        assert(text::texts(r@) =~= others_of(all.take(0), rest));
    }
    while i < list.len()
        invariant
            i <= list@.len(),
            all == text::texts(list@),
            rest == text::texts(other@),
            text::texts(r@) == others_of(all.take(i as int), rest),
        decreases list@.len() - i,
    {
        proof {
            assert(all.take(i + 1).drop_last() =~= all.take(i as int));
            assert(all.take(i + 1).last() == list@[i as int]@);
        }
        if !is_among(other, list[i].as_str()) {
            let ghost before = r@;
            r.push(list[i].clone());
            proof {
                assert(text::texts(r@) =~= text::texts(before).push(list@[i as int]@));
            }
        }
        i = i + 1;
    }
    proof {
        assert(all.take(list@.len() as int) =~= all);
    }
    r
}

/// The roots to start, in the order in which they are wanted, and those to stop.
pub fn reconcile_diff(desired: &[String], current: &[String]) -> (r: (Vec<String>, Vec<String>))
    ensures
        text::texts(r.0@) == others_of(text::texts(desired@), text::texts(current@)),
        text::texts(r.1@) == others_of(text::texts(current@), text::texts(desired@)),
{
    (others(desired, current), others(current, desired))
}

/// A root that is being indexed.
#[derive(Debug)]
pub struct Running {
    pub root: String,
    /// Whether its thread has ended by itself.
    pub finished: bool,
}

/// The roots among the first `n` whose threads have ended, or have not.
pub open spec fn running_below(actors: Seq<Running>, finished: bool, n: int) -> Seq<Seq<char>>
    decreases n,
{
    if n <= 0 {
        Seq::empty()
    } else if actors[n - 1].finished == finished {
        running_below(actors, finished, n - 1).push(actors[n - 1].root@)
    } else {
        running_below(actors, finished, n - 1)
    }
}

/// The roots whose threads have ended and are to be forgotten, and the others.
pub fn split_finished(actors: &Vec<Running>) -> (r: (Vec<String>, Vec<String>))
    ensures
        text::texts(r.0@) == running_below(actors@, true, actors@.len() as int),
        text::texts(r.1@) == running_below(actors@, false, actors@.len() as int),
{
    let mut dead: Vec<String> = Vec::new();
    let mut alive: Vec<String> = Vec::new();
    let mut i: usize = 0;
    proof {
        assert(text::texts(dead@) =~= running_below(actors@, true, 0));
        assert(text::texts(alive@) =~= running_below(actors@, false, 0));
    }
    while i < actors.len()
        invariant
            i <= actors@.len(),
            text::texts(dead@) == running_below(actors@, true, i as int),
            text::texts(alive@) == running_below(actors@, false, i as int),
        decreases actors@.len() - i,
    {
        let root = actors[i].root.clone();
        if actors[i].finished {
            let ghost before = dead@;
            dead.push(root);
            proof {
                assert(text::texts(dead@) =~= text::texts(before).push(root@));
            }
        } else {
            let ghost before = alive@;
            alive.push(root);
            proof {
                assert(text::texts(alive@) =~= text::texts(before).push(root@));
            }
        }
        i = i + 1;
    }
    (dead, alive)
}

/// The entries whose roots are not being indexed, in order.
pub open spec fn starts_of(
    live: Seq<(Seq<char>, Seq<char>)>,
    current: Seq<Seq<char>>,
) -> Seq<(Seq<char>, Seq<char>)>
    decreases live.len(),
{
    if live.len() == 0 {
        Seq::empty()
    } else if among(current, live.last().0) {
        starts_of(live.drop_last(), current)
    } else {
        starts_of(live.drop_last(), current).push(live.last())
    }
}

/// The roots of a list of entries.
pub open spec fn entry_roots(live: Seq<(Seq<char>, Seq<char>)>) -> Seq<Seq<char>> {
    Seq::new(live.len(), |i: int| live[i].0)
}

/// Brings what is being indexed in line with the registry: the roots to start, with
/// their collections, and the roots to stop. `live` is what a scan of the registry
/// found, `current` what is being indexed.
pub fn reconcile(live: &Vec<(String, String)>, current: &Vec<String>) -> (r: (
    Vec<(String, String)>,
    Vec<String>,
))
    ensures
        registry::entry_views(r.0@) == starts_of(
            registry::entry_views(live@),
            text::texts(current@),
        ),
        text::texts(r.1@) == others_of(
            text::texts(current@),
            entry_roots(registry::entry_views(live@)),
        ),
{
    let ghost all = registry::entry_views(live@);
    let ghost now = text::texts(current@);
    let mut roots: Vec<String> = Vec::new();
    let mut start: Vec<(String, String)> = Vec::new();
    let mut i: usize = 0;
    proof {
        assert(registry::entry_views(start@) =~= starts_of(all.take(0), now));
    }
    while i < live.len()
        invariant
            i <= live@.len(),
            all == registry::entry_views(live@),
            now == text::texts(current@),
            text::texts(roots@) == entry_roots(all).take(i as int),
            registry::entry_views(start@) == starts_of(all.take(i as int), now),
        decreases live@.len() - i,
    {
        let ghost earlier = roots@;
        let root = live[i].0.clone();
        proof {
            assert(all.take(i + 1).drop_last() =~= all.take(i as int));
            assert(all.take(i + 1).last() == (live@[i as int].0@, live@[i as int].1@));
        }
        if !is_among(current.as_slice(), root.as_str()) {
            let ghost before = start@;
            start.push((live[i].0.clone(), live[i].1.clone()));
            proof {
                assert(registry::entry_views(start@) =~= registry::entry_views(before).push(
                    all[i as int],
                ));
            }
        }
        roots.push(root);
        proof {
            assert(text::texts(roots@) =~= text::texts(earlier).push(all[i as int].0));
            assert(text::texts(roots@) =~= entry_roots(all).take(i + 1));
        }
        i = i + 1;
    }
    proof {
        assert(all.take(live@.len() as int) =~= all);
        assert(entry_roots(all).take(live@.len() as int) =~= entry_roots(all));
    }
    let stop = others(current.as_slice(), roots.as_slice());
    (start, stop)
}

proof fn lemma_others(list: Seq<Seq<char>>, other: Seq<Seq<char>>)
    ensures
        forall|p: Seq<char>| #[trigger]
            among(others_of(list, other), p) <==> among(list, p) && !among(other, p),
    decreases list.len(),
{
    let r = others_of(list, other);
    if list.len() > 0 {
        let head = list.drop_last();
        let last = list.last();
        lemma_others(head, other);
        let q = others_of(head, other);
        assert forall|p: Seq<char>| #[trigger] among(r, p) <==> among(list, p) && !among(other, p) by {
            lemma_among_push(head, last, p);
            assert(list =~= head.push(last));
            lemma_among_push(q, last, p);
            if paths::components(last) == paths::components(p) {
                lemma_among_same(other, last, p);
            }
        }
    }
}

proof fn lemma_among_same(list: Seq<Seq<char>>, a: Seq<char>, b: Seq<char>)
    requires
        paths::components(a) == paths::components(b),
    ensures
        among(list, a) == among(list, b),
{
}

proof fn lemma_among_push(list: Seq<Seq<char>>, x: Seq<char>, p: Seq<char>)
    ensures
        among(list.push(x), p) <==> among(list, p) || paths::components(x) == paths::components(p),
{
    let all = list.push(x);
    if among(list, p) {
        let i = choose|i: int|
            0 <= i < list.len() && paths::components(#[trigger] list[i]) == paths::components(p);
        assert(all[i] == list[i]);
    }
    if paths::components(x) == paths::components(p) {
        assert(all[list.len() as int] == x);
    }
    if among(all, p) {
        let i = choose|i: int|
            0 <= i < all.len() && paths::components(#[trigger] all[i]) == paths::components(p);
        if i < list.len() {
            assert(list[i] == all[i]);
        }
    }
}

proof fn lemma_start_roots(live: Seq<(Seq<char>, Seq<char>)>, current: Seq<Seq<char>>)
    ensures
        entry_roots(starts_of(live, current)) == others_of(entry_roots(live), current),
    decreases live.len(),
{
    let roots = entry_roots(live);
    if live.len() > 0 {
        lemma_start_roots(live.drop_last(), current);
        assert(roots.drop_last() =~= entry_roots(live.drop_last()));
        assert(roots.last() == live.last().0);
        if !among(current, live.last().0) {
            assert(entry_roots(starts_of(live, current)) =~= entry_roots(
                starts_of(live.drop_last(), current),
            ).push(live.last().0));
        }
    } else {
        assert(entry_roots(starts_of(live, current)) =~= others_of(roots, current));
    }
}

/// After the roots to stop are stopped and those to start are started, exactly the
/// registered roots are being indexed.
pub proof fn law_reconcile_converges(
    live: Seq<(Seq<char>, Seq<char>)>,
    current: Seq<Seq<char>>,
    p: Seq<char>,
)
    ensures
        among(entry_roots(live), p) <==> {
            ||| among(entry_roots(starts_of(live, current)), p)
            ||| among(current, p) && !among(others_of(current, entry_roots(live)), p)
        },
{
    lemma_start_roots(live, current);
    lemma_others(entry_roots(live), current);
    lemma_others(current, entry_roots(live));
}

/// A root that is being indexed is not started again, and one that is started is
/// not stopped.
pub proof fn law_reconcile_starts_only_new_roots(
    live: Seq<(Seq<char>, Seq<char>)>,
    current: Seq<Seq<char>>,
    p: Seq<char>,
)
    requires
        among(entry_roots(starts_of(live, current)), p),
    ensures
        !among(current, p),
        !among(others_of(current, entry_roots(live)), p),
{
    lemma_start_roots(live, current);
    lemma_others(entry_roots(live), current);
    lemma_others(current, entry_roots(live));
}

proof fn lemma_starts_in_order(live: Seq<(Seq<char>, Seq<char>)>, current: Seq<Seq<char>>)
    requires
        registry::in_order(live),
    ensures
        registry::in_order(starts_of(live, current)),
        forall|i: int|
            0 <= i < starts_of(live, current).len() ==> live.contains(
                #[trigger] starts_of(live, current)[i],
            ),
    decreases live.len(),
{
    if live.len() > 0 {
        let head = live.drop_last();
        let last = live.last();
        assert forall|i: int, j: int| 0 <= i < j < head.len() implies registry::path_before(
            (#[trigger] head[i]).0,
            (#[trigger] head[j]).0,
        ) by {
            assert(head[i] == live[i] && head[j] == live[j]);
        }
        lemma_starts_in_order(head, current);
        let q = starts_of(head, current);
        let r = starts_of(live, current);
        assert forall|i: int| 0 <= i < q.len() implies {
            &&& live.contains(#[trigger] q[i])
            &&& registry::path_before(q[i].0, last.0)
        } by {
            assert(head.contains(q[i]));
            let k = choose|k: int| 0 <= k < head.len() && head[k] == q[i];
            assert(live[k] == q[i]);
            assert(registry::path_before(live[k].0, live[live.len() - 1].0));
        }
        if !among(current, last.0) {
            assert(r =~= q.push(last));
            assert(live[live.len() - 1] == last);
            assert forall|i: int, j: int| 0 <= i < j < r.len() implies registry::path_before(
                (#[trigger] r[i]).0,
                (#[trigger] r[j]).0,
            ) by {
                if j < q.len() {
                    assert(registry::path_before(q[i].0, q[j].0));
                } else {
                    assert(registry::path_before(q[i].0, last.0));
                }
            }
        }
    }
}

/// No root is started twice: the entries that a scan finds are started in the order
/// of their paths.
pub proof fn law_reconcile_starts_each_root_once(
    live: Seq<(Seq<char>, Seq<char>)>,
    current: Seq<Seq<char>>,
)
    requires
        registry::in_order(live),
    ensures
        registry::in_order(starts_of(live, current)),
{
    lemma_starts_in_order(live, current);
}

// ---------------------------------------------------------------------------
// Dispatch of events
// ---------------------------------------------------------------------------

/// The events of a batch, by the roots that they are for.
pub struct Dispatch {
    registry_changed: bool,
    batches: Vec<Vec<(Evt, String)>>,
}

/// Whether the patterns can be asked about the path, where it lies in the root.
pub open spec fn askable(root: Seq<char>, patterns: Option<Ignore>, path: Seq<char>) -> bool {
    match patterns {
        Some(known) => walk::askable(root, known, path),
        None => true,
    }
}

/// Whether the event for the path is one for the root.
pub open spec fn concerns(
    root: Seq<char>,
    patterns: Option<Ignore>,
    kind: ChangeKind,
    path: Seq<char>,
) -> bool {
    &&& paths::within(path, root)
    &&& daemon::change_of(kind) is Some
    &&& match patterns {
        Some(known) => walk::wanted(root, known, path),
        None => false,
    }
}

/// The batch of a root after an event.
pub open spec fn batch_after(
    before: Seq<(Evt, Seq<char>)>,
    root: Seq<char>,
    patterns: Option<Ignore>,
    kind: ChangeKind,
    path: Seq<char>,
) -> Seq<(Evt, Seq<char>)> {
    if concerns(root, patterns, kind, path) {
        before.push((daemon::change_of(kind)->0, path))
    } else {
        before
    }
}

/// An event concerns only roots that its path is routed to.
pub proof fn law_events_go_where_they_are_routed(
    roots: Seq<String>,
    i: int,
    patterns: Option<Ignore>,
    kind: ChangeKind,
    path: Seq<char>,
)
    requires
        0 <= i < roots.len(),
        concerns(roots[i]@, patterns, kind, path),
    ensures
        owners_below(path, roots, roots.len() as int).contains(roots[i]@),
{
    lemma_owners_contain(path, roots, roots.len() as int, i);
}

/// An event that creates, changes or removes a file in a root adds exactly one change to
/// that root's batch, where the root's patterns are known, the file is of an indexed kind
/// and it is not ignored: a deletion for a removal, else an update. No other event adds
/// anything.
pub proof fn law_events_reach_their_roots(
    before: Seq<(Evt, Seq<char>)>,
    root: Seq<char>,
    patterns: Option<Ignore>,
    kind: ChangeKind,
    path: Seq<char>,
)
    ensures
        batch_after(before, root, patterns, kind, path) == before + if patterns is Some
            && paths::components(root).is_prefix_of(paths::components(path)) && walk::indexable(path)
            && !walk::ignores(
            patterns->0.root(),
            patterns->0.lines(),
            paths::relative(path, root)->0,
            false,
        ) {
            match kind {
                ChangeKind::Create => seq![(Evt::Upsert, path)],
                ChangeKind::Modify => seq![(Evt::Upsert, path)],
                ChangeKind::Remove => seq![(Evt::Delete, path)],
                _ => Seq::empty(),
            }
        } else {
            Seq::empty()
        },
{
    paths::lemma_within(path, root);
    if patterns is Some {
        walk::law_watched_files(root, patterns->0, path);
    }
    assert(before + Seq::<(Evt, Seq<char>)>::empty() =~= before);
    assert(before.push((Evt::Upsert, path)) =~= before + seq![(Evt::Upsert, path)]);
    assert(before.push((Evt::Delete, path)) =~= before + seq![(Evt::Delete, path)]);
}

impl Dispatch {
    /// The number of roots.
    pub closed spec fn roots(self) -> nat {
        self.batches@.len()
    }

    /// Whether the registry has changed.
    pub closed spec fn registry(self) -> bool {
        self.registry_changed
    }

    /// The changes for the root at `i`.
    pub closed spec fn batch(self, i: int) -> Seq<(Evt, Seq<char>)> {
        daemon::change_texts(self.batches@[i]@)
    }

    /// No event yet, for `n` roots.
    pub fn new(n: usize) -> (r: Dispatch)
        ensures
            r.roots() == n,
            !r.registry(),
            forall|i: int| 0 <= i < n ==> (#[trigger] r.batch(i)).len() == 0,
    {
        let mut batches: Vec<Vec<(Evt, String)>> = Vec::new();
        let mut i: usize = 0;
        while i < n
            invariant
                i <= n,
                batches@.len() == i,
                forall|k: int| 0 <= k < i ==> (#[trigger] batches@[k])@.len() == 0,
            decreases n - i,
        {
            batches.push(Vec::new());
            i = i + 1;
        }
        Dispatch { registry_changed: false, batches }
    }

    /// Takes one path of an event. A path in the directory of the registry says that
    /// the registry has changed. The own `.gitignore` of a root is answered with the
    /// place of that root, whose patterns are then to be read again. Any other path is
    /// a change for each root that it lies in and is to be indexed in; a root whose
    /// patterns are not known takes none.
    pub fn take(
        &mut self,
        registry_dir: &str,
        roots: &Vec<String>,
        patterns: &Vec<Option<Ignore>>,
        kind: &ChangeKind,
        path: &str,
    ) -> (reload: Option<usize>)
        requires
            old(self).roots() == roots@.len(),
            roots@.len() == patterns@.len(),
            forall|i: int|
                0 <= i < roots@.len() ==> askable(
                    (#[trigger] roots@[i])@,
                    patterns@[i],
                    path@,
                ),
        ensures
            final(self).roots() == old(self).roots(),
            final(self).registry() == (old(self).registry() || paths::within(
                path@,
                registry_dir@,
            )),
            match reload {
                Some(i) => !paths::within(path@, registry_dir@) && reloaded(
                    path@,
                    roots@,
                    i as int,
                ),
                None => paths::within(path@, registry_dir@) || forall|j: int|
                    0 <= j < roots@.len() ==> !ignore_file_of(path@, #[trigger] roots@[j]@),
            },
            forall|i: int|
                0 <= i < roots@.len() ==> #[trigger] final(self).batch(i) == (if paths::within(
                    path@,
                    registry_dir@,
                ) || reload is Some {
                    old(self).batch(i)
                } else {
                    batch_after(old(self).batch(i), roots@[i]@, patterns@[i], *kind, path@)
                }),
    {
        if paths::starts_with(path, registry_dir) {
            self.registry_changed = true;
            return None;
        }
        match reload_index(path, roots.as_slice()) {
            Some(i) => {
                return Some(i);
            },
            None => {},
        }
        let mut i: usize = 0;
        while i < roots.len()
            invariant
                i <= roots@.len(),
                self.batches@.len() == roots@.len(),
                old(self).batches@.len() == roots@.len(),
                roots@.len() == patterns@.len(),
                self.registry_changed == old(self).registry_changed,
                forall|k: int|
                    0 <= k < roots@.len() ==> askable(
                        (#[trigger] roots@[k])@,
                        patterns@[k],
                        path@,
                    ),
                forall|k: int|
                    0 <= k < i ==> #[trigger] self.batch(k) == batch_after(
                        old(self).batch(k),
                        roots@[k]@,
                        patterns@[k],
                        *kind,
                        path@,
                    ),
                forall|k: int|
                    i <= k < roots@.len() ==> #[trigger] self.batches@[k] == old(self).batches@[k],
            decreases roots@.len() - i,
        {
            let ghost entry = *self;
            let ghost before = self.batches@;
            let root = roots[i].as_str();
            proof {
                assert(askable(roots@[i as int]@, patterns@[i as int], path@));
                assert(self.batches@[i as int] == old(self).batches@[i as int]);
            }
            let mut change: Option<Evt> = None;
            if paths::starts_with(path, root) {
                match &patterns[i] {
                    Some(known) => {
                        if daemon::watch_keep(root, known, path) {
                            change = daemon::evt_for(kind);
                        }
                    },
                    None => {},
                }
            }
            match change {
                Some(evt) => {
                    self.batches[i].push((evt, path.to_string()));
                    proof {
                        assert(daemon::change_texts(self.batches@[i as int]@) =~= daemon::change_texts(
                            before[i as int]@,
                        ).push((evt, path@)));
                    }
                },
                None => {},
            }
            proof {
                assert forall|k: int| 0 <= k < i + 1 implies #[trigger] self.batch(k)
                    == batch_after(
                    old(self).batch(k),
                    roots@[k]@,
                    patterns@[k],
                    *kind,
                    path@,
                ) by {
                    if k < i {
                        assert(self.batches@[k] == before[k]);
                        assert(entry.batch(k) == self.batch(k));
                    } else {
                        assert(before[k] == old(self).batches@[k]);
                    }
                }
            }
            i = i + 1;
        }
        None
    }

    /// Whether the registry has changed.
    pub fn registry_changed(&self) -> (r: bool)
        ensures
            r == self.registry(),
    {
        self.registry_changed
    }

    /// The changes for each root.
    pub fn into_batches(self) -> (r: Vec<Vec<(Evt, String)>>)
        ensures
            r@.len() == self.roots(),
            forall|i: int|
                0 <= i < r@.len() ==> daemon::change_texts(#[trigger] r@[i]@) == self.batch(i),
    {
        self.batches
    }
}

// ---------------------------------------------------------------------------
// Collections that nobody indexes any more
// ---------------------------------------------------------------------------

/// Whether a collection is to be dropped: it is this indexer's, its last run is
/// known, and that is longer ago than the limit. A limit of 0 drops nothing.
pub open spec fn is_stale(c: CollectionInfo, now: u64, ttl_secs: u64) -> bool {
    ttl_secs > 0 && c.index_repo && match c.last_indexed {
        Some(t) => now - t > ttl_secs,
        None => false,
    }
}

/// The names of the stale collections among the first `n`, in order.
pub open spec fn stale_below(
    collections: Seq<CollectionInfo>,
    now: u64,
    ttl_secs: u64,
    n: int,
) -> Seq<Seq<char>>
    decreases n,
{
    if n <= 0 {
        Seq::empty()
    } else if is_stale(collections[n - 1], now, ttl_secs) {
        stale_below(collections, now, ttl_secs, n - 1).push(collections[n - 1].name@)
    } else {
        stale_below(collections, now, ttl_secs, n - 1)
    }
}

/// Dropped are, in order, the collections of this indexer whose last run is known and
/// more than the limit ago, where there is a limit: none that was indexed within it.
pub proof fn law_stale_collections(
    collections: Seq<CollectionInfo>,
    now: u64,
    ttl_secs: u64,
    n: int,
)
    requires
        0 <= n <= collections.len(),
    ensures
        stale_below(collections, now, ttl_secs, n) == collections.take(n).filter_map(
            |c: CollectionInfo|
                if c.index_repo && ttl_secs > 0 && c.last_indexed is Some && c.last_indexed->0
                    + ttl_secs < now {
                    Some(c.name@)
                } else {
                    None
                },
        ),
    decreases n,
{
    let f = |c: CollectionInfo|
        if c.index_repo && ttl_secs > 0 && c.last_indexed is Some && c.last_indexed->0 + ttl_secs
            < now {
            Some(c.name@)
        } else {
            None
        };
    if n > 0 {
        law_stale_collections(collections, now, ttl_secs, n - 1);
        collections.lemma_filter_map_take_succ(f, n - 1);
        let c = collections[n - 1];
        let head = stale_below(collections, now, ttl_secs, n - 1);
        assert(is_stale(c, now, ttl_secs) == (f(c) is Some));
        assert(head.push(c.name@) =~= head + seq![c.name@]);
        assert(head =~= head + Seq::<Seq<char>>::empty());
    } else {
        assert(collections.take(0).filter_map(f) =~= Seq::<Seq<char>>::empty());
    }
}

/// The names of the collections to drop.
pub fn gc_decide(collections: &[CollectionInfo], now: u64, ttl_secs: u64) -> (r: Vec<String>)
    ensures
        text::texts(r@) == stale_below(collections@, now, ttl_secs, collections@.len() as int),
        text::texts(r@) == collections@.filter_map(
            (|c: CollectionInfo|
                if c.index_repo && ttl_secs > 0 && c.last_indexed is Some && c.last_indexed->0
                    + ttl_secs < now {
                    Some(c.name@)
                } else {
                    None
                }),
        ),
{
    proof {
        law_stale_collections(collections@, now, ttl_secs, collections@.len() as int);
        assert(collections@.take(collections@.len() as int) =~= collections@);
    }
    let mut r: Vec<String> = Vec::new();
    let mut i: usize = 0;
    proof {
        assert(text::texts(r@) =~= stale_below(collections@, now, ttl_secs, 0));
    }
    while i < collections.len()
        invariant
            i <= collections@.len(),
            text::texts(r@) == stale_below(collections@, now, ttl_secs, i as int),
        decreases collections@.len() - i,
    {
        let c = &collections[i];
        let stale = match c.last_indexed {
            Some(t) => ttl_secs > 0 && c.index_repo && now > t && now - t > ttl_secs,
            None => false,
        };
        if stale {
            let ghost before = r@;
            r.push(c.name.clone());
            proof {
                assert(text::texts(r@) =~= text::texts(before).push(c.name@));
            }
        }
        i = i + 1;
    }
    r
}

/// A collection that a sweep has come upon.
#[derive(Debug)]
pub struct Doomed {
    pub name: String,
    /// For how many whole days it has not been indexed.
    pub idle_days: u64,
    /// Whether it is to be dropped; a dry run only reports it.
    pub drop: bool,
}

/// Whole days from `t` to `now`, none where `t` is not in the past.
pub open spec fn days_since(now: u64, t: u64) -> nat {
    if now > t {
        ((now - t) / 86_400) as nat
    } else {
        0
    }
}

/// For how many days the first collection of the name has not been indexed; 0 where
/// that is not known.
pub open spec fn idle_days_of(collections: Seq<CollectionInfo>, name: Seq<char>, now: u64) -> nat
    decreases collections.len(),
{
    if collections.len() == 0 {
        0
    } else if collections[0].name@ == name {
        match collections[0].last_indexed {
            Some(t) => days_since(now, t),
            None => 0,
        }
    } else {
        idle_days_of(collections.drop_first(), name, now)
    }
}

fn idle_days(collections: &[CollectionInfo], name: &str, now: u64) -> (r: u64)
    ensures
        r == idle_days_of(collections@, name@, now),
{
    let mut i: usize = 0;
    proof {
        assert(collections@.skip(0) =~= collections@);
    }
    while i < collections.len()
        invariant
            i <= collections@.len(),
            idle_days_of(collections@, name@, now) == idle_days_of(
                collections@.skip(i as int),
                name@,
                now,
            ),
        decreases collections@.len() - i,
    {
        proof {
            assert(collections@.skip(i as int)[0] == collections@[i as int]);
            assert(collections@.skip(i as int).drop_first() =~= collections@.skip(i + 1));
        }
        if text::str_eq(collections[i].name.as_str(), name) {
            return match collections[i].last_indexed {
                Some(t) => if now > t {
                    (now - t) / 86_400
                } else {
                    0
                },
                None => 0,
            };
        }
        i = i + 1;
    }
    0
}

/// What a sweep does with the collections of the database: the stale ones, each with
/// the time since its last run, to be dropped unless it is a dry run.
pub fn gc_sweep(
    collections: &[CollectionInfo],
    now: u64,
    ttl_secs: u64,
    dry_run: bool,
) -> (r: Vec<Doomed>)
    ensures
        r@.len() == stale_below(collections@, now, ttl_secs, collections@.len() as int).len(),
        forall|i: int|
            0 <= i < r@.len() ==> {
                &&& (#[trigger] r@[i]).name@ == stale_below(
                    collections@,
                    now,
                    ttl_secs,
                    collections@.len() as int,
                )[i]
                &&& r@[i].idle_days == idle_days_of(collections@, r@[i].name@, now)
                &&& r@[i].drop == !dry_run
            },
{
    let names = gc_decide(collections, now, ttl_secs);
    let ghost all = stale_below(collections@, now, ttl_secs, collections@.len() as int);
    let mut r: Vec<Doomed> = Vec::new();
    let mut i: usize = 0;
    proof {
        assert(all.len() == names@.len());
    }
    while i < names.len()
        invariant
            i <= names@.len(),
            r@.len() == i,
            all == text::texts(names@),
            forall|k: int|
                0 <= k < i ==> {
                    &&& (#[trigger] r@[k]).name@ == all[k]
                    &&& r@[k].idle_days == idle_days_of(collections@, r@[k].name@, now)
                    &&& r@[k].drop == !dry_run
                },
        decreases names@.len() - i,
    {
        let name = names[i].clone();
        let days: u64 = idle_days(collections, name.as_str(), now);
        proof {
            assert(all[i as int] == name@);
        }
        r.push(Doomed { name, idle_days: days, drop: !dry_run });
        i = i + 1;
    }
    r
}

/// The collection that a sweep comes to next, by how it went with those before it: the
/// one after them, whether or not they could be dropped.
pub fn next_doomed(doomed: &[Doomed], outcomes: &[bool]) -> (r: Option<usize>)
    ensures
        r == if outcomes@.len() < doomed@.len() {
            Some(outcomes@.len() as usize)
        } else {
            None
        },
{
    if outcomes.len() < doomed.len() {
        Some(outcomes.len())
    } else {
        None
    }
}

/// How many of the first `n` collections were dropped: those to be dropped with which it
/// went well.
pub open spec fn dropped_below(doomed: Seq<Doomed>, outcomes: Seq<bool>, n: int) -> nat
    decreases n,
{
    if n <= 0 {
        0
    } else {
        dropped_below(doomed, outcomes, n - 1) + if doomed[n - 1].drop && outcomes[n - 1] {
            1nat
        } else {
            0nat
        }
    }
}

/// How many collections a sweep has dropped, by how it went with each that it has come
/// to.
pub fn count_dropped(doomed: &[Doomed], outcomes: &[bool]) -> (n: usize)
    requires
        outcomes@.len() <= doomed@.len(),
    ensures
        n == dropped_below(doomed@, outcomes@, outcomes@.len() as int),
{
    let mut n: usize = 0;
    let mut i: usize = 0;
    while i < outcomes.len()
        invariant
            i <= outcomes@.len() <= doomed@.len(),
            n <= i,
            n == dropped_below(doomed@, outcomes@, i as int),
        decreases outcomes@.len() - i,
    {
        if doomed[i].drop && outcomes[i] {
            n = n + 1;
        }
        i = i + 1;
    }
    n
}

/// A dry run drops nothing, and a sweep that goes well drops every collection that it
/// has come to.
pub proof fn law_dry_run_drops_nothing(
    doomed: Seq<Doomed>,
    outcomes: Seq<bool>,
    dry_run: bool,
    n: int,
)
    requires
        0 <= n <= outcomes.len() <= doomed.len(),
        forall|i: int| 0 <= i < doomed.len() ==> (#[trigger] doomed[i]).drop == !dry_run,
    ensures
        dry_run ==> dropped_below(doomed, outcomes, n) == 0,
        !dry_run && (forall|i: int| 0 <= i < n ==> #[trigger] outcomes[i]) ==> dropped_below(
            doomed,
            outcomes,
            n,
        ) == n,
    decreases n,
{
    if n > 0 {
        law_dry_run_drops_nothing(doomed, outcomes, dry_run, n - 1);
        assert(doomed[n - 1].drop == !dry_run);
    }
}

/// A sweep drops a collection only where it is this indexer's and has not been
/// indexed within the limit, and each such one.
pub proof fn law_sweep_drops_exactly_the_stale(
    collections: Seq<CollectionInfo>,
    now: u64,
    ttl_secs: u64,
    n: int,
    name: Seq<char>,
)
    requires
        0 <= n <= collections.len(),
    ensures
        stale_below(collections, now, ttl_secs, n).contains(name) <==> exists|i: int|
            0 <= i < n && (#[trigger] collections[i]).name@ == name && is_stale(
                collections[i],
                now,
                ttl_secs,
            ),
    decreases n,
{
    if n > 0 {
        law_sweep_drops_exactly_the_stale(collections, now, ttl_secs, n - 1, name);
        let head = stale_below(collections, now, ttl_secs, n - 1);
        let all = stale_below(collections, now, ttl_secs, n);
        if head.contains(name) {
            let k = choose|k: int| 0 <= k < head.len() && head[k] == name;
            assert(all[k] == name);
        }
        if all.contains(name) {
            let k = choose|k: int| 0 <= k < all.len() && all[k] == name;
            if k < head.len() {
                assert(head[k] == name);
            }
        }
        if is_stale(collections[n - 1], now, ttl_secs) {
            assert(all.last() == collections[n - 1].name@);
        }
    }
}

// ---------------------------------------------------------------------------
// Chunks that no root refers to
// ---------------------------------------------------------------------------

/// The stored chunks that an orphan sweep deletes: those that no root refers to. It
/// deletes none where no root refers to anything, nor where the chunks to delete
/// would be half of those stored or more.
pub open spec fn swept(content: Set<Seq<char>>, referenced: Set<Seq<char>>) -> Set<Seq<char>> {
    let orphans = content.difference(referenced);
    if referenced.len() == 0 || 2 * orphans.len() >= content.len() {
        Set::empty()
    } else {
        orphans
    }
}

/// The names of the collections among the first `n` that are this indexer's and not
/// among `dropped`, in order.
pub open spec fn kept_below(
    collections: Seq<CollectionInfo>,
    dropped: Set<Seq<char>>,
    n: int,
) -> Seq<Seq<char>>
    decreases n,
{
    if n <= 0 {
        Seq::empty()
    } else if collections[n - 1].index_repo && !dropped.contains(collections[n - 1].name@) {
        kept_below(collections, dropped, n - 1).push(collections[n - 1].name@)
    } else {
        kept_below(collections, dropped, n - 1)
    }
}

/// The collections in which chunks that no root refers to are looked for: those of this
/// indexer that the sweep does not drop. A dry run looks at none.
pub fn orphan_targets(
    collections: &[CollectionInfo],
    now: u64,
    ttl_secs: u64,
    dry_run: bool,
) -> (r: Vec<String>)
    ensures
        text::texts(r@) == if dry_run {
            Seq::<Seq<char>>::empty()
        } else {
            kept_below(
                collections@,
                stale_below(collections@, now, ttl_secs, collections@.len() as int).to_set(),
                collections@.len() as int,
            )
        },
{
    let mut r: Vec<String> = Vec::new();
    proof {
        assert(text::texts(r@) =~= Seq::<Seq<char>>::empty());
    }
    if dry_run {
        return r;
    }
    let names = gc_decide(collections, now, ttl_secs);
    let dropped = IdSet::of(&names);
    let mut i: usize = 0;
    while i < collections.len()
        invariant
            i <= collections@.len(),
            dropped.wf(),
            text::texts(r@) == kept_below(collections@, dropped@, i as int),
        decreases collections@.len() - i,
    {
        let c = &collections[i];
        if c.index_repo && !dropped.contains(c.name.as_str()) {
            let ghost before = r@;
            r.push(c.name.clone());
            proof {
                assert(text::texts(r@) =~= text::texts(before).push(c.name@));
            }
        }
        i = i + 1;
    }
    proof {
        assert(dropped@ =~= stale_below(
            collections@,
            now,
            ttl_secs,
            collections@.len() as int,
        ).to_set());
    }
    r
}

/// Chunks are looked for in each collection of this indexer that is not dropped, and in
/// none that is.
pub proof fn law_dropped_collections_are_left_alone(
    collections: Seq<CollectionInfo>,
    dropped: Set<Seq<char>>,
    n: int,
    name: Seq<char>,
)
    requires
        0 <= n <= collections.len(),
    ensures
        kept_below(collections, dropped, n).contains(name) <==> !dropped.contains(name) && exists|
            i: int,
        |
            0 <= i < n && (#[trigger] collections[i]).name@ == name && collections[i].index_repo,
    decreases n,
{
    if n > 0 {
        law_dropped_collections_are_left_alone(collections, dropped, n - 1, name);
        let head = kept_below(collections, dropped, n - 1);
        let all = kept_below(collections, dropped, n);
        if head.contains(name) {
            let k = choose|k: int| 0 <= k < head.len() && head[k] == name;
            assert(all[k] == name);
        }
        if all.contains(name) {
            let k = choose|k: int| 0 <= k < all.len() && all[k] == name;
            if k < head.len() {
                assert(head[k] == name);
            }
        }
        if collections[n - 1].index_repo && !dropped.contains(collections[n - 1].name@) {
            assert(all.last() == collections[n - 1].name@);
        }
    }
}

/// The chunks that an orphan sweep deletes, each once.
pub fn gc_orphans(content: &IdSet, referenced: &IdSet) -> (r: Vec<String>)
    requires
        content.wf(),
        referenced.wf(),
    ensures
        text::texts(r@).no_duplicates(),
        text::texts(r@).to_set() == swept(content@, referenced@),
{
    let list = content.to_vec();
    let ghost all = text::texts(list@);
    let mut r: Vec<String> = Vec::new();
    let mut i: usize = 0;
    while i < list.len()
        invariant
            i <= list@.len(),
            all == text::texts(list@),
            all.no_duplicates(),
            forall|k: Seq<char>| #[trigger] all.contains(k) <==> content@.contains(k),
            r@.len() <= i,
            text::texts(r@).no_duplicates(),
            forall|j: int|
                0 <= j < r@.len() ==> !referenced@.contains(#[trigger] text::texts(r@)[j])
                    && all.take(i as int).contains(text::texts(r@)[j]),
            forall|j: int|
                0 <= j < i && !referenced@.contains(#[trigger] all[j]) ==> text::texts(
                    r@,
                ).contains(all[j]),
        decreases list@.len() - i,
    {
        let ghost before = r@;
        let ghost seen = text::texts(before);
        proof {
            assert(all[i as int] == list@[i as int]@);
            assert forall|k: Seq<char>| all.take(i as int).contains(k) implies all.take(
                i + 1,
            ).contains(k) by {
                let j = choose|j: int| 0 <= j < i && all.take(i as int)[j] == k;
                assert(all.take(i + 1)[j] == k);
            }
            assert(all.take(i + 1)[i as int] == all[i as int]);
        }
        if !referenced.contains(list[i].as_str()) {
            proof {
                if seen.contains(all[i as int]) {
                    let j = choose|j: int| 0 <= j < seen.len() && seen[j] == all[i as int];
                    assert(all.take(i as int).contains(seen[j]));
                    let k = choose|k: int| 0 <= k < i && all.take(i as int)[k] == seen[j];
                    assert(all[k] == all[i as int]);
                    assert(false);
                }
            }
            r.push(list[i].clone());
            proof {
                let grown = text::texts(r@);
                assert(grown =~= seen.push(all[i as int]));
                assert forall|j: int| 0 <= j < r@.len() implies !referenced@.contains(
                    #[trigger] grown[j],
                ) && all.take(i + 1).contains(grown[j]) by {
                    if j < seen.len() {
                        assert(grown[j] == seen[j]);
                    }
                }
                assert forall|j: int|
                    0 <= j < i + 1 && !referenced@.contains(#[trigger] all[j]) implies grown.contains(
                    all[j],
                ) by {
                    if j < i {
                        assert(seen.contains(all[j]));
                        let k = choose|k: int| 0 <= k < seen.len() && seen[k] == all[j];
                        assert(grown[k] == all[j]);
                    } else {
                        assert(grown.last() == all[j]);
                    }
                }
            }
        }
        i = i + 1;
    }
    let ghost orphans = text::texts(r@);
    proof {
        content.lemma_finite();
        assert(orphans.to_set() =~= content@.difference(referenced@)) by {
            assert forall|k: Seq<char>| orphans.contains(k) <==> content@.contains(k)
                && !referenced@.contains(k) by {
                if orphans.contains(k) {
                    let j = choose|j: int| 0 <= j < orphans.len() && orphans[j] == k;
                    assert(all.take(i as int).contains(orphans[j]));
                    let m = choose|m: int| 0 <= m < i && all.take(i as int)[m] == k;
                    assert(all[m] == k);
                    assert(all.contains(k));
                }
                if content@.contains(k) && !referenced@.contains(k) {
                    assert(all.contains(k));
                    let m = choose|m: int| 0 <= m < all.len() && all[m] == k;
                    assert(orphans.contains(all[m]));
                }
            }
        }
        orphans.unique_seq_to_set();
        assert(orphans.len() == r@.len());
    }
    if referenced.is_empty() || r.len() >= list.len() - r.len() {
        let none: Vec<String> = Vec::new();
        proof {
            assert(text::texts(none@).to_set() =~= Set::<Seq<char>>::empty());
        }
        return none;
    }
    r
}

/// An orphan sweep deletes nothing that a root refers to, and keeps more than half
/// of what is stored.
pub proof fn law_orphan_sweep_is_safe(content: Set<Seq<char>>, referenced: Set<Seq<char>>)
    requires
        content.finite(),
    ensures
        forall|id: Seq<char>| #[trigger]
            swept(content, referenced).contains(id) ==> content.contains(id)
                && !referenced.contains(id),
        2 * swept(content, referenced).len() < content.len() || swept(content, referenced)
            == Set::<Seq<char>>::empty(),
{
}

/// Nothing that a root refers to in its manifest is deleted.
pub proof fn law_sweep_spares_manifests(
    rows: Seq<ManifestRow>,
    content: Set<Seq<char>>,
    referenced: Set<Seq<char>>,
    root: Seq<char>,
    id: Seq<char>,
)
    requires
        forall|k: Seq<char>| #[trigger] referenced.contains(k) <==> manifest::any_refers(rows, k),
        manifest::root_refers(rows, root, id),
    ensures
        !swept(content, referenced).contains(id),
{
    manifest::law_union_of_roots(rows, id);
    assert(referenced.contains(id));
}

/// A step in sweeping a collection for chunks that no root refers to.
#[derive(Debug, Clone, Copy, PartialEq, Eq, Structural)]
pub enum OrphanStep {
    /// Open the collection and that of its manifests.
    Open,
    /// List the chunks that are stored.
    ListContent,
    /// List the chunks that a root refers to.
    ListReferences,
    /// Delete the chunks that no root refers to.
    Delete,
    /// It is done.
    Done,
    /// Give up with the error of the request.
    Fail,
}

/// What follows a step in sweeping a collection. What is stored is listed before what is
/// referred to: a root refers to a chunk before it adds it, so a chunk that is listed is
/// referred to by then.
pub open spec fn orphan_step_after(step: OrphanStep, ok: bool) -> OrphanStep {
    match step {
        OrphanStep::Done => OrphanStep::Done,
        OrphanStep::Fail => OrphanStep::Fail,
        _ => if !ok {
            OrphanStep::Fail
        } else {
            match step {
                OrphanStep::Open => OrphanStep::ListContent,
                OrphanStep::ListContent => OrphanStep::ListReferences,
                OrphanStep::ListReferences => OrphanStep::Delete,
                _ => OrphanStep::Done,
            }
        },
    }
}

/// What follows a step in sweeping a collection.
pub fn next_orphan_step(step: OrphanStep, ok: bool) -> (r: OrphanStep)
    ensures
        r == orphan_step_after(step, ok),
{
    match step {
        OrphanStep::Done => OrphanStep::Done,
        OrphanStep::Fail => OrphanStep::Fail,
        _ => {
            if !ok {
                OrphanStep::Fail
            } else {
                match step {
                    OrphanStep::Open => OrphanStep::ListContent,
                    OrphanStep::ListContent => OrphanStep::ListReferences,
                    OrphanStep::ListReferences => OrphanStep::Delete,
                    _ => OrphanStep::Done,
                }
            }
        },
    }
}

/// The steps in sweeping a collection, given which of them succeed, from the first on.
pub open spec fn orphan_steps(outcomes: Seq<bool>) -> Seq<OrphanStep> {
    steps::trace(
        OrphanStep::Open,
        |step: OrphanStep, ok: bool| orphan_step_after(step, ok),
        outcomes,
    )
}

/// A sweep deletes only once it has listed what is stored, and after that what is
/// referred to.
pub proof fn law_sweep_lists_content_first(outcomes: Seq<bool>, i: int)
    requires
        0 <= i <= outcomes.len(),
        orphan_steps(outcomes)[i] == OrphanStep::Delete,
    ensures
        i >= 3,
        outcomes[i - 1],
        outcomes[i - 2],
        orphan_steps(outcomes)[i - 1] == OrphanStep::ListReferences,
        orphan_steps(outcomes)[i - 2] == OrphanStep::ListContent,
{
    let all = orphan_steps(outcomes);
    steps::lemma_trace(
        OrphanStep::Open,
        |step: OrphanStep, ok: bool| orphan_step_after(step, ok),
        outcomes,
    );
    assert(i > 0);
    assert(all[i] == orphan_step_after(all[i - 1], outcomes[i - 1]));
    assert(all[i - 1] == orphan_step_after(all[i - 2], outcomes[i - 2]));
    assert(all[i - 2] == orphan_step_after(all[i - 3], outcomes[i - 3]));
}

// ---------------------------------------------------------------------------
// Starting the service
// ---------------------------------------------------------------------------

/// How a step in starting the service went.
#[derive(Debug, Clone, Copy, PartialEq, Eq, Structural)]
pub enum Outcome {
    Done,
    /// Another process is in the way.
    Busy,
    Failed,
}

/// A step in starting the service.
#[derive(Debug, Clone, Copy, PartialEq, Eq, Structural)]
pub enum ServeStep {
    /// Take the lock of the service.
    Lock,
    /// Make a watcher.
    MakeWatcher,
    /// Watch the directory of the registry.
    WatchRegistry,
    /// Start the roots of the registry.
    Reconcile,
    /// Wait for events.
    Listen,
    /// Give up with the error of the step.
    Fail,
    /// End with the exit code.
    Exit(u8),
}

/// What follows a step in starting. Where another process holds the lock there is
/// nothing to do; without a watcher the service ends with `EXIT_WATCH_FAILED`. That the
/// registry is not watched does not end it, since it is scanned now and then.
pub open spec fn serve_step_after(step: ServeStep, outcome: Outcome) -> ServeStep {
    match step {
        ServeStep::Lock => match outcome {
            Outcome::Done => ServeStep::MakeWatcher,
            Outcome::Busy => ServeStep::Exit(0),
            Outcome::Failed => ServeStep::Fail,
        },
        ServeStep::MakeWatcher => if outcome == Outcome::Done {
            ServeStep::WatchRegistry
        } else {
            ServeStep::Exit(EXIT_WATCH_FAILED)
        },
        ServeStep::WatchRegistry => ServeStep::Reconcile,
        ServeStep::Reconcile => if outcome == Outcome::Done {
            ServeStep::Listen
        } else {
            ServeStep::Fail
        },
        ServeStep::Listen => ServeStep::Listen,
        ServeStep::Fail => ServeStep::Fail,
        ServeStep::Exit(code) => ServeStep::Exit(code),
    }
}

/// What follows a step in starting the service.
pub fn next_serve_step(step: ServeStep, outcome: Outcome) -> (r: ServeStep)
    ensures
        r == serve_step_after(step, outcome),
{
    match step {
        ServeStep::Lock => match outcome {
            Outcome::Done => ServeStep::MakeWatcher,
            Outcome::Busy => ServeStep::Exit(0),
            Outcome::Failed => ServeStep::Fail,
        },
        ServeStep::MakeWatcher => {
            if outcome == Outcome::Done {
                ServeStep::WatchRegistry
            } else {
                ServeStep::Exit(EXIT_WATCH_FAILED)
            }
        },
        ServeStep::WatchRegistry => ServeStep::Reconcile,
        ServeStep::Reconcile => {
            if outcome == Outcome::Done {
                ServeStep::Listen
            } else {
                ServeStep::Fail
            }
        },
        ServeStep::Listen => ServeStep::Listen,
        ServeStep::Fail => ServeStep::Fail,
        ServeStep::Exit(code) => ServeStep::Exit(code),
    }
}

/// The steps in starting the service, given how each of them went, from the first on.
pub open spec fn serve_steps(outcomes: Seq<Outcome>) -> Seq<ServeStep> {
    steps::trace(
        ServeStep::Lock,
        |step: ServeStep, outcome: Outcome| serve_step_after(step, outcome),
        outcomes,
    )
}

/// The service runs once: past its first step it holds the lock, or has ended. It ends
/// with the code 0 where another process holds the lock, and with `EXIT_WATCH_FAILED`
/// where it holds the lock and has no watcher.
pub proof fn law_service_runs_once(outcomes: Seq<Outcome>, i: int)
    requires
        0 < i <= outcomes.len(),
    ensures
        outcomes[0] == Outcome::Busy ==> serve_steps(outcomes)[i] == ServeStep::Exit(0),
        outcomes[0] == Outcome::Failed ==> serve_steps(outcomes)[i] == ServeStep::Fail,
        outcomes[0] == Outcome::Done && i >= 2 && outcomes[1] != Outcome::Done ==> serve_steps(
            outcomes,
        )[i] == ServeStep::Exit(EXIT_WATCH_FAILED),
        serve_steps(outcomes)[i] == ServeStep::Listen <==> i >= 4 && outcomes[0] == Outcome::Done
            && outcomes[1] == Outcome::Done && outcomes[3] == Outcome::Done,
    decreases i,
{
    let all = serve_steps(outcomes);
    steps::lemma_trace(
        ServeStep::Lock,
        |step: ServeStep, outcome: Outcome| serve_step_after(step, outcome),
        outcomes,
    );
    assert(all[i] == serve_step_after(all[i - 1], outcomes[i - 1]));
    if i > 1 {
        law_service_runs_once(outcomes, i - 1);
        assert(all[1] == serve_step_after(all[0], outcomes[0]));
        if i <= 4 {
            assert(all[2] == serve_step_after(all[1], outcomes[1]));
            if i >= 3 {
                assert(all[3] == serve_step_after(all[2], outcomes[2]));
            }
        }
    }
}

// ---------------------------------------------------------------------------
// The thread of a root
// ---------------------------------------------------------------------------

/// What a root's thread received.
#[derive(Debug, Clone, Copy, PartialEq, Eq, Structural)]
pub enum Received {
    /// A batch of changes.
    Batch,
    /// Nothing for a while.
    Nothing,
    /// There will be no more batches.
    Closed,
}

/// A step of the thread of a root.
#[derive(Debug, Clone, Copy, PartialEq, Eq, Structural)]
pub enum ActorStep {
    /// Open the collections of the root.
    Open,
    /// Scan the root.
    Scan,
    /// Stamp the collection with the time.
    Touch,
    /// Wait for a batch.
    Wait,
    /// Apply the batch.
    Apply,
    /// End.
    Stop,
}

/// What follows a step of the thread of a root. The collection is stamped after the
/// scan, after each batch, and after a while without any; whether that succeeds does
/// not matter.
pub open spec fn actor_step_after(step: ActorStep, ok: bool, received: Received) -> ActorStep {
    match step {
        ActorStep::Open => if ok {
            ActorStep::Scan
        } else {
            ActorStep::Stop
        },
        ActorStep::Scan => if ok {
            ActorStep::Touch
        } else {
            ActorStep::Stop
        },
        ActorStep::Touch => ActorStep::Wait,
        ActorStep::Wait => match received {
            Received::Batch => ActorStep::Apply,
            Received::Nothing => ActorStep::Touch,
            Received::Closed => ActorStep::Stop,
        },
        ActorStep::Apply => ActorStep::Touch,
        ActorStep::Stop => ActorStep::Stop,
    }
}

/// What follows a step of the thread of a root.
pub fn next_actor_step(step: ActorStep, ok: bool, received: Received) -> (r: ActorStep)
    ensures
        r == actor_step_after(step, ok, received),
{
    match step {
        ActorStep::Open => {
            if ok {
                ActorStep::Scan
            } else {
                ActorStep::Stop
            }
        },
        ActorStep::Scan => {
            if ok {
                ActorStep::Touch
            } else {
                ActorStep::Stop
            }
        },
        ActorStep::Touch => ActorStep::Wait,
        ActorStep::Wait => match received {
            Received::Batch => ActorStep::Apply,
            Received::Nothing => ActorStep::Touch,
            Received::Closed => ActorStep::Stop,
        },
        ActorStep::Apply => ActorStep::Touch,
        ActorStep::Stop => ActorStep::Stop,
    }
}

// ---------------------------------------------------------------------------
// The loop
// ---------------------------------------------------------------------------

/// How often the registry is scanned, in seconds.
pub const GC_INTERVAL_SECS: u64 = 30;

/// How often stale collections are swept, in seconds.
pub const GC_SWEEP_INTERVAL_SECS: u64 = 21_600;

/// How often the collection of a root is stamped while nothing happens, in seconds.
pub const TOUCH_INTERVAL_SECS: u64 = 21_600;

/// What is due before the service waits for events.
#[derive(Debug, Clone, Copy, PartialEq, Eq, Structural)]
pub struct Due {
    /// The registry is to be scanned.
    pub reconcile: bool,
    /// The time of the last sweep starts anew.
    pub sweep_clock: bool,
    /// Stale collections are to be swept.
    pub sweep: bool,
}

/// What is due, by the seconds since the registry was scanned and since collections
/// were swept. A limit of 0 turns the sweep off.
pub fn due(since_reconcile: u64, since_sweep: u64, ttl_secs: u64) -> (r: Due)
    ensures
        r.reconcile == (since_reconcile >= GC_INTERVAL_SECS),
        r.sweep_clock == (since_sweep >= GC_SWEEP_INTERVAL_SECS),
        r.sweep == (since_sweep >= GC_SWEEP_INTERVAL_SECS && ttl_secs > 0),
{
    let elapsed = since_sweep >= GC_SWEEP_INTERVAL_SECS;
    Due {
        reconcile: since_reconcile >= GC_INTERVAL_SECS,
        sweep_clock: elapsed,
        sweep: elapsed && ttl_secs > 0,
    }
}

/// What the service does after a wait. A signal to stop ends it with 0; an error of the
/// watcher is reported and does not end it.
pub fn next_step(waited: Waited) -> (r: Next)
    ensures
        r == match waited {
            Waited::Stopped => Next::Exit(0),
            Waited::Events => Next::Apply,
            Waited::Errors => Next::Wait,
            Waited::Timeout => Next::Wait,
            Waited::Disconnected => Next::Exit(0),
        },
{
    match waited {
        Waited::Events => Next::Apply,
        Waited::Errors | Waited::Timeout => Next::Wait,
        Waited::Stopped | Waited::Disconnected => Next::Exit(0),
    }
}

/// A path goes to the deepest of the roots that it lies in: to none where it lies in none,
/// and else to one of them such that no other has more components.
pub proof fn law_route_is_the_deepest_root(path: &str, roots: &[String], r: Option<&String>)
    requires
        call_ensures(route, (path, roots), r),
    ensures
        r is Some <==> exists|j: int|
            0 <= j < roots@.len() && paths::components((#[trigger] roots@[j])@).is_prefix_of(
                paths::components(path@),
            ),
        r is Some ==> {
            &&& roots@.contains(*r.unwrap())
            &&& paths::components(r.unwrap()@).is_prefix_of(paths::components(path@))
            &&& forall|j: int|
                0 <= j < roots@.len() && paths::components((#[trigger] roots@[j])@).is_prefix_of(
                    paths::components(path@),
                ) ==> paths::components(roots@[j]@).len() <= paths::components(r.unwrap()@).len()
        },
{
    assert forall|j: int| 0 <= j < roots@.len() implies paths::within(
        path@,
        (#[trigger] roots@[j])@,
    ) == paths::components(roots@[j]@).is_prefix_of(paths::components(path@)) by {
        paths::lemma_within(path@, roots@[j]@);
    }
    if r is Some {
        let i = choose|i: int| #[trigger] owner(path@, roots@, i) && *r.unwrap() == roots@[i];
        assert(roots@[i] == *r.unwrap());
    }
}

/// A path goes to each of the roots that it lies in, in order.
pub proof fn law_routes_of_a_path(path: Seq<char>, roots: Seq<String>)
    ensures
        owners_below(path, roots, roots.len() as int) == text::texts(roots).filter(
            |root: Seq<char>| paths::components(root).is_prefix_of(paths::components(path)),
        ),
{
    lemma_routes(path, roots, roots.len() as int);
    assert(text::texts(roots).take(roots.len() as int) =~= text::texts(roots));
}

proof fn lemma_routes(path: Seq<char>, roots: Seq<String>, n: int)
    requires
        0 <= n <= roots.len(),
    ensures
        owners_below(path, roots, n) == text::texts(roots).take(n).filter(
            |root: Seq<char>| paths::components(root).is_prefix_of(paths::components(path)),
        ),
    decreases n,
{
    reveal(Seq::filter);
    if n > 0 {
        lemma_routes(path, roots, n - 1);
        let t = text::texts(roots).take(n);
        assert(t.drop_last() =~= text::texts(roots).take(n - 1));
        assert(t.last() == roots[n - 1]@);
        paths::lemma_within(path, roots[n - 1]@);
    }
}

/// The patterns of a root are read anew for the `.gitignore` directly in it, and for no
/// other file.
pub proof fn law_ignore_file_of_a_root(path: Seq<char>, root: Seq<char>)
    ensures
        ignore_file_of(path, root) <==> paths::components(path) == paths::components(root).push(
            ".gitignore"@,
        ),
{
    reveal_strlit(".gitignore");
    let p = paths::components(path);
    let r = paths::components(root);
    assert(".gitignore"@.len() == 10);
    if ignore_file_of(path, root) {
        assert(p =~= p.drop_last().push(p.last()));
    }
    if p == r.push(".gitignore"@) {
        assert(p.drop_last() =~= r);
        assert(p.last() == ".gitignore"@);
    }
}

/// Started are, in order, the roots of the registry that are not being indexed, each with
/// its collection; stopped are, in order, those being indexed that the registry does not
/// list. Two spellings of one path are the same root.
pub proof fn law_reconcile_by_elements(
    live: Seq<(Seq<char>, Seq<char>)>,
    current: Seq<Seq<char>>,
    other: Seq<Seq<char>>,
)
    ensures
        starts_of(live, current) == live.filter(
            |e: (Seq<char>, Seq<char>)|
                forall|i: int|
                    0 <= i < current.len() ==> paths::components(#[trigger] current[i])
                        != paths::components(e.0),
        ),
        others_of(current, other) == current.filter(
            |p: Seq<char>|
                forall|i: int|
                    0 <= i < other.len() ==> paths::components(#[trigger] other[i])
                        != paths::components(p),
        ),
{
    lemma_starts_filtered(live, current);
    lemma_others_filtered(current, other);
}

proof fn lemma_starts_filtered(live: Seq<(Seq<char>, Seq<char>)>, current: Seq<Seq<char>>)
    ensures
        starts_of(live, current) == live.filter(
            |e: (Seq<char>, Seq<char>)|
                forall|i: int|
                    0 <= i < current.len() ==> paths::components(#[trigger] current[i])
                        != paths::components(e.0),
        ),
    decreases live.len(),
{
    reveal(Seq::filter);
    if live.len() > 0 {
        lemma_starts_filtered(live.drop_last(), current);
    }
}

proof fn lemma_others_filtered(list: Seq<Seq<char>>, other: Seq<Seq<char>>)
    ensures
        others_of(list, other) == list.filter(
            |p: Seq<char>|
                forall|i: int|
                    0 <= i < other.len() ==> paths::components(#[trigger] other[i])
                        != paths::components(p),
        ),
    decreases list.len(),
{
    reveal(Seq::filter);
    if list.len() > 0 {
        lemma_others_filtered(list.drop_last(), other);
    }
}

/// Forgotten are, in order, the roots whose threads have ended; the others stay.
pub proof fn law_ended_threads(actors: Seq<Running>, finished: bool, n: int)
    requires
        0 <= n <= actors.len(),
    ensures
        running_below(actors, finished, n) == actors.take(n).filter_map(
            |a: Running|
                if a.finished == finished {
                    Some(a.root@)
                } else {
                    None
                },
        ),
    decreases n,
{
    let f = |a: Running|
        if a.finished == finished {
            Some(a.root@)
        } else {
            None
        };
    if n > 0 {
        law_ended_threads(actors, finished, n - 1);
        actors.lemma_filter_map_take_succ(f, n - 1);
        let head = running_below(actors, finished, n - 1);
        assert(head.push(actors[n - 1].root@) =~= head + seq![actors[n - 1].root@]);
        assert(head =~= head + Seq::<Seq<char>>::empty());
    } else {
        assert(actors.take(0).filter_map(f) =~= Seq::<Seq<char>>::empty());
    }
}

/// A collection is reported with the whole days since it was last indexed: the seconds
/// since then are at least that many days and less than one more.
pub proof fn law_idle_days(collections: Seq<CollectionInfo>, i: int, now: u64)
    requires
        0 <= i < collections.len(),
        forall|j: int| 0 <= j < i ==> (#[trigger] collections[j]).name@ != collections[i].name@,
    ensures
        ({
            let days = idle_days_of(collections, collections[i].name@, now);
            match collections[i].last_indexed {
                Some(t) => if t <= now {
                    days * 24 * 60 * 60 <= now - t < (days + 1) * 24 * 60 * 60
                } else {
                    days == 0
                },
                None => days == 0,
            }
        }),
    decreases collections.len(),
{
    if i > 0 {
        let rest = collections.drop_first();
        assert(collections[0].name@ != collections[i].name@);
        assert forall|j: int| 0 <= j < i - 1 implies (#[trigger] rest[j]).name@ != rest[i
            - 1].name@ by {
            assert(rest[j] == collections[j + 1]);
        }
        law_idle_days(rest, i - 1, now);
    }
}

/// An orphan sweep deletes a chunk exactly where it is stored, no root refers to it, and
/// roots refer to more than half of what is stored.
pub proof fn law_orphan_sweep(
    content: Set<Seq<char>>,
    referenced: Set<Seq<char>>,
    id: Seq<char>,
)
    requires
        content.finite(),
        referenced.finite(),
    ensures
        swept(content, referenced).contains(id) <==> {
            &&& content.contains(id)
            &&& !referenced.contains(id)
            &&& 2 * content.intersect(referenced).len() > content.len()
        },
{
    let orphans = content.difference(referenced);
    let kept = content.intersect(referenced);
    vstd::set_lib::lemma_set_disjoint_lens(orphans, kept);
    assert(orphans + kept =~= content);
    if referenced.len() == 0 {
        assert(referenced =~= Set::empty());
        assert(kept =~= Set::empty());
    }
}

/// Orphans are looked for, in order, in the collections of this indexer that are not
/// dropped.
pub proof fn law_collections_swept_for_orphans(
    collections: Seq<CollectionInfo>,
    dropped: Set<Seq<char>>,
    n: int,
)
    requires
        0 <= n <= collections.len(),
    ensures
        kept_below(collections, dropped, n) == collections.take(n).filter_map(
            |c: CollectionInfo|
                if c.index_repo && !dropped.contains(c.name@) {
                    Some(c.name@)
                } else {
                    None
                },
        ),
    decreases n,
{
    let f = |c: CollectionInfo|
        if c.index_repo && !dropped.contains(c.name@) {
            Some(c.name@)
        } else {
            None
        };
    if n > 0 {
        law_collections_swept_for_orphans(collections, dropped, n - 1);
        collections.lemma_filter_map_take_succ(f, n - 1);
        let head = kept_below(collections, dropped, n - 1);
        assert(head.push(collections[n - 1].name@) =~= head + seq![collections[n - 1].name@]);
        assert(head =~= head + Seq::<Seq<char>>::empty());
    } else {
        assert(collections.take(0).filter_map(f) =~= Seq::<Seq<char>>::empty());
    }
}

/// Counted as dropped are the collections to be dropped with which it went well.
pub proof fn law_dropped_are_counted(doomed: Seq<Doomed>, outcomes: Seq<bool>, n: int)
    requires
        0 <= n <= outcomes.len() <= doomed.len(),
    ensures
        dropped_below(doomed, outcomes, n) == Seq::new(n as nat, |i: int| i).filter(
            |i: int| doomed[i].drop && outcomes[i],
        ).len(),
    decreases n,
{
    reveal(Seq::filter);
    if n > 0 {
        law_dropped_are_counted(doomed, outcomes, n - 1);
        assert(Seq::new(n as nat, |i: int| i).drop_last() =~= Seq::new((n - 1) as nat, |i: int| i));
    }
}

/// The registry is scanned once 30 seconds have passed, and stale collections are looked
/// for once 6 hours have, where they are dropped at all.
pub proof fn law_what_is_due(since_reconcile: u64, since_sweep: u64, ttl_secs: u64, r: Due)
    requires
        call_ensures(due, (since_reconcile, since_sweep, ttl_secs), r),
    ensures
        r.reconcile <==> since_reconcile >= 30,
        r.sweep_clock <==> since_sweep >= 6 * 60 * 60,
        r.sweep <==> since_sweep >= 6 * 60 * 60 && ttl_secs != 0,
{
}

/// The service ends, with success, when it is told to stop or its watcher is gone; events
/// are applied, and nothing else wakes it.
pub proof fn law_service_after_a_wait(waited: Waited, r: Next)
    requires
        call_ensures(next_step, (waited,), r),
    ensures
        r == Next::Apply <==> waited == Waited::Events,
        r == Next::Exit(0) <==> waited == Waited::Stopped || waited == Waited::Disconnected,
        r == Next::Wait <==> waited == Waited::Errors || waited == Waited::Timeout,
{
}

/// A sweep of a collection that meets no failure opens it, lists what is stored, lists
/// what is referred to, deletes, and is done; the first failure ends it.
pub proof fn law_orphan_sweep_steps(outcomes: Seq<bool>, i: int)
    requires
        0 <= i <= outcomes.len(),
    ensures
        ({
            let all = orphan_steps(outcomes);
            &&& (forall|j: int| 0 <= j < i ==> #[trigger] outcomes[j]) ==> all[i] == if i == 0 {
                OrphanStep::Open
            } else if i == 1 {
                OrphanStep::ListContent
            } else if i == 2 {
                OrphanStep::ListReferences
            } else if i == 3 {
                OrphanStep::Delete
            } else {
                OrphanStep::Done
            }
            &&& (exists|j: int| 0 <= j < i && j < 4 && !#[trigger] outcomes[j]) ==> all[i]
                == OrphanStep::Fail
        }),
    decreases i,
{
    let all = orphan_steps(outcomes);
    steps::lemma_trace(
        OrphanStep::Open,
        |step: OrphanStep, ok: bool| orphan_step_after(step, ok),
        outcomes,
    );
    if i > 0 {
        law_orphan_sweep_steps(outcomes, i - 1);
        assert(all[i] == orphan_step_after(all[i - 1], outcomes[i - 1]));
        if exists|j: int| 0 <= j < i && j < 4 && !#[trigger] outcomes[j] {
            if exists|j: int| 0 <= j < i - 1 && j < 4 && !#[trigger] outcomes[j] {
            } else {
                assert(forall|j: int| 0 <= j < i - 1 ==> j < 4 ==> #[trigger] outcomes[j]);
                assert(!outcomes[i - 1]);
            }
        }
    }
}

/// The thread of a root opens its collections and scans it, and ends where either fails.
/// Then it stamps the collection and waits: a batch is applied and the collection stamped
/// again, a while without one only has it stamped, and once nothing more can come the
/// thread ends.
pub proof fn law_thread_of_a_root(ok: bool, received: Received)
    ensures
        actor_step_after(ActorStep::Open, true, received) == ActorStep::Scan,
        actor_step_after(ActorStep::Scan, true, received) == ActorStep::Touch,
        actor_step_after(ActorStep::Open, false, received) == ActorStep::Stop,
        actor_step_after(ActorStep::Scan, false, received) == ActorStep::Stop,
        actor_step_after(ActorStep::Touch, ok, received) == ActorStep::Wait,
        actor_step_after(ActorStep::Wait, ok, received) == ActorStep::Apply <==> received
            == Received::Batch,
        actor_step_after(ActorStep::Wait, ok, received) == ActorStep::Touch <==> received
            == Received::Nothing,
        actor_step_after(ActorStep::Wait, ok, received) == ActorStep::Stop <==> received
            == Received::Closed,
        actor_step_after(ActorStep::Apply, ok, received) == ActorStep::Touch,
        actor_step_after(ActorStep::Stop, ok, received) == ActorStep::Stop,
{
}

/// The patterns that are read anew are those of the first root that holds the path
/// directly, under the name `.gitignore`; and where a root does, some are.
pub proof fn law_reload_names_the_root(path: Seq<char>, roots: Seq<String>, j: int) -> (i: int)
    requires
        0 <= j < roots.len(),
        paths::components(path) == paths::components(roots[j]@).push(".gitignore"@),
    ensures
        0 <= i <= j,
        reloaded(path, roots, i),
        paths::components(roots[i]@) == paths::components(roots[j]@),
    decreases j,
{
    law_ignore_file_of_a_root(path, roots[j]@);
    if exists|k: int| 0 <= k < j && ignore_file_of(path, (#[trigger] roots[k])@) {
        let k = choose|k: int| 0 <= k < j && ignore_file_of(path, (#[trigger] roots[k])@);
        law_ignore_file_of_a_root(path, roots[k]@);
        let p = paths::components(path);
        assert(p.drop_last() =~= paths::components(roots[k]@));
        assert(p.drop_last() =~= paths::components(roots[j]@));
        law_reload_names_the_root(path, roots, k)
    } else {
        assert forall|k: int| 0 <= k < j implies !ignore_file_of(path, #[trigger] roots[k]@) by {
            assert(roots[k] == roots[k]);
        }
        j
    }
}

} // verus!
