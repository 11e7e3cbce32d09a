//! Live updates: from file system events to changes of the index.
//!
//! A batch of events becomes a list of actions, one for each file. Once the files
//! have been looked at, `plan_changes` says what the root refers to from then on
//! and which records are new; once the requests have been made, `process_changes`
//! takes over the new state or leaves the old one.
use vstd::prelude::*;

use crate::ids::{IdSet, PathIds};
use crate::oneshot;
use crate::report::EXIT_WATCH_FAILED;
use crate::store::{Meta, Record, RecordView};
use crate::walk::Ignore;
use crate::{ids, paths, steps, store, text, walk};

verus! {

/// What happened to a path.
#[derive(Debug, Clone, Copy, PartialEq, Eq, Structural)]
pub enum Evt {
    Delete,
    Upsert,
    Resync,
}

/// The kinds of file system events.
#[derive(Debug, Clone, Copy, PartialEq, Eq, Structural)]
pub enum ChangeKind {
    Any,
    Access,
    Create,
    Modify,
    Remove,
    Other,
}

/// What an event means for a path: removal deletes it, creation and modification
/// update it, and nothing else counts.
pub open spec fn change_of(kind: ChangeKind) -> Option<Evt> {
    match kind {
        ChangeKind::Remove => Some(Evt::Delete),
        ChangeKind::Create => Some(Evt::Upsert),
        ChangeKind::Modify => Some(Evt::Upsert),
        _ => None,
    }
}

/// What an event means for a path.
pub fn evt_for(kind: &ChangeKind) -> (r: Option<Evt>)
    ensures
        r == change_of(*kind),
{
    match kind {
        ChangeKind::Remove => Some(Evt::Delete),
        ChangeKind::Create | ChangeKind::Modify => Some(Evt::Upsert),
        _ => None,
    }
}

/// Whether events for the path are looked at: it lies in the root, is not ignored,
/// and is of a kind that is indexed. Neither its size nor its existence counts.
pub fn watch_keep(root: &str, patterns: &Ignore, path: &str) -> (r: bool)
    requires
        walk::askable(root@, *patterns, path@),
    ensures
        r == walk::wanted(root@, *patterns, path@),
{
    proof {
        walk::lemma_askable(root@, *patterns, path@);
    }
    match paths::strip_prefix(path, root) {
        Some(rel) => {
            if patterns.is_ignored(rel.as_str()) {
                false
            } else {
                walk::is_indexable(path)
            }
        },
        None => false,
    }
}

/// Whether a change of a path is applied. Deletions of anything in the root are, so
/// that the removal of ignored paths and of whole directories is noticed; updates only
/// where the file is one to index.
pub open spec fn kept(root: Seq<char>, patterns: Ignore, path: Seq<char>, evt: Evt) -> bool {
    match evt {
        Evt::Delete => paths::within(path, root),
        Evt::Upsert => walk::wanted(root, patterns, path),
        Evt::Resync => true,
    }
}

/// Whether a change of a path is applied.
pub fn keep_event(root: &str, patterns: &Ignore, path: &str, evt: &Evt) -> (r: bool)
    requires
        *evt == Evt::Upsert ==> walk::askable(root@, *patterns, path@),
    ensures
        r == kept(root@, *patterns, path@, *evt),
{
    match evt {
        Evt::Delete => paths::starts_with(path, root),
        Evt::Upsert => watch_keep(root, patterns, path),
        Evt::Resync => true,
    }
}

/// How long nothing has to happen before the root is scanned again, in seconds.
pub const RESYNC_INTERVAL_SECS: u64 = 2_700;

/// What waiting for events came to.
#[derive(Debug, Clone, Copy, PartialEq, Eq, Structural)]
pub enum Waited {
    /// A signal to stop came.
    Stopped,
    Events,
    Errors,
    Timeout,
    Disconnected,
}

/// What the live indexer does next.
#[derive(Debug, Clone, Copy, PartialEq, Eq, Structural)]
pub enum Next {
    /// Apply the events.
    Apply,
    /// Scan the root again, and take over what it refers to.
    Resync,
    /// Wait on.
    Wait,
    /// End with the exit code.
    Exit(u8),
}

/// What follows a wait, by the seconds since the root was scanned. A signal to stop ends
/// the indexer with 0, and an error of the watcher with `EXIT_WATCH_FAILED`.
pub fn next_step(waited: Waited, since_scan: u64) -> (r: Next)
    ensures
        r == match waited {
            Waited::Stopped => Next::Exit(0),
            Waited::Events => Next::Apply,
            Waited::Errors => Next::Exit(EXIT_WATCH_FAILED),
            Waited::Timeout => if since_scan >= RESYNC_INTERVAL_SECS {
                Next::Resync
            } else {
                Next::Wait
            },
            Waited::Disconnected => Next::Exit(0),
        },
{
    match waited {
        Waited::Stopped => Next::Exit(0),
        Waited::Events => Next::Apply,
        Waited::Errors => Next::Exit(EXIT_WATCH_FAILED),
        Waited::Timeout => {
            if since_scan >= RESYNC_INTERVAL_SECS {
                Next::Resync
            } else {
                Next::Wait
            }
        },
        Waited::Disconnected => Next::Exit(0),
    }
}

/// A step in starting the live indexer.
#[derive(Debug, Clone, Copy, PartialEq, Eq, Structural)]
pub enum StartStep {
    /// Scan the root.
    Scan,
    /// Make a watcher.
    MakeWatcher,
    /// Watch the root.
    WatchRoot,
    /// Wait for events.
    Listen,
    /// Give up with the error of the scan.
    Fail,
    /// End with the exit code.
    Exit(u8),
}

/// What follows a step in starting. A scan that fails is an error; without a watcher on
/// the root the indexer ends with `EXIT_WATCH_FAILED`.
pub open spec fn start_step_after(step: StartStep, ok: bool) -> StartStep {
    match step {
        StartStep::Scan => if ok {
            StartStep::MakeWatcher
        } else {
            StartStep::Fail
        },
        StartStep::MakeWatcher => if ok {
            StartStep::WatchRoot
        } else {
            StartStep::Exit(EXIT_WATCH_FAILED)
        },
        StartStep::WatchRoot => if ok {
            StartStep::Listen
        } else {
            StartStep::Exit(EXIT_WATCH_FAILED)
        },
        StartStep::Listen => StartStep::Listen,
        StartStep::Fail => StartStep::Fail,
        StartStep::Exit(code) => StartStep::Exit(code),
    }
}

/// What follows a step in starting the live indexer.
pub fn next_start_step(step: StartStep, ok: bool) -> (r: StartStep)
    ensures
        r == start_step_after(step, ok),
{
    match step {
        StartStep::Scan => {
            if ok {
                StartStep::MakeWatcher
            } else {
                StartStep::Fail
            }
        },
        StartStep::MakeWatcher => {
            if ok {
                StartStep::WatchRoot
            } else {
                StartStep::Exit(EXIT_WATCH_FAILED)
            }
        },
        StartStep::WatchRoot => {
            if ok {
                StartStep::Listen
            } else {
                StartStep::Exit(EXIT_WATCH_FAILED)
            }
        },
        StartStep::Listen => StartStep::Listen,
        StartStep::Fail => StartStep::Fail,
        StartStep::Exit(code) => StartStep::Exit(code),
    }
}

/// The steps in starting, given which of them succeed, from the first on.
pub open spec fn start_steps(outcomes: Seq<bool>) -> Seq<StartStep> {
    steps::trace(
        StartStep::Scan,
        |step: StartStep, ok: bool| start_step_after(step, ok),
        outcomes,
    )
}

/// The live indexer listens where the root was scanned, a watcher was made and the root
/// is watched, and only there. It fails where the scan did, and ends with
/// `EXIT_WATCH_FAILED` where there is no watcher.
pub proof fn law_listens_after_scan(outcomes: Seq<bool>, i: int)
    requires
        0 <= i <= outcomes.len(),
    ensures
        start_steps(outcomes)[i] == StartStep::Listen <==> i >= 3 && outcomes[0] && outcomes[1]
            && outcomes[2],
        start_steps(outcomes)[i] == StartStep::Fail <==> i >= 1 && !outcomes[0],
        start_steps(outcomes)[i] is Exit <==> i >= 2 && outcomes[0] && (!outcomes[1] || i >= 3
            && !outcomes[2]),
        start_steps(outcomes)[i] is Exit ==> start_steps(outcomes)[i] == StartStep::Exit(EXIT_WATCH_FAILED),
    decreases i,
{
    let all = start_steps(outcomes);
    steps::lemma_trace(
        StartStep::Scan,
        |step: StartStep, ok: bool| start_step_after(step, ok),
        outcomes,
    );
    if i > 0 {
        law_listens_after_scan(outcomes, i - 1);
        assert(all[i] == start_step_after(all[i - 1], outcomes[i - 1]));
        if i == 2 {
            assert(all[1] == start_step_after(all[0], outcomes[0]));
        }
        if i == 3 {
            assert(all[1] == start_step_after(all[0], outcomes[0]));
            assert(all[2] == start_step_after(all[1], outcomes[1]));
        }
    }
}

/// Whether the patterns can be asked about the path, where the event needs it.
pub open spec fn event_askable(
    root: Seq<char>,
    patterns: Ignore,
    kind: ChangeKind,
    path: Seq<char>,
) -> bool {
    change_of(kind) == Some(Evt::Upsert) ==> walk::askable(root, patterns, path)
}

/// Whether an event for the path is applied.
pub open spec fn event_kept(
    root: Seq<char>,
    patterns: Ignore,
    kind: ChangeKind,
    path: Seq<char>,
) -> bool {
    match change_of(kind) {
        Some(evt) => kept(root, patterns, path, evt),
        None => false,
    }
}

/// The changes that the first `n` events make, in order.
pub open spec fn changes_below(
    root: Seq<char>,
    patterns: Ignore,
    events: Seq<(ChangeKind, String)>,
    n: int,
) -> Seq<(Evt, Seq<char>)>
    decreases n,
{
    if n <= 0 {
        Seq::empty()
    } else if event_kept(root, patterns, events[n - 1].0, events[n - 1].1@) {
        changes_below(root, patterns, events, n - 1).push(
            (change_of(events[n - 1].0)->0, events[n - 1].1@),
        )
    } else {
        changes_below(root, patterns, events, n - 1)
    }
}

/// The views of a list of changes.
pub open spec fn change_texts(v: Seq<(Evt, String)>) -> Seq<(Evt, Seq<char>)> {
    Seq::new(v.len(), |i: int| (v[i].0, v[i].1@))
}

/// The changes that a batch of events makes to the root.
pub fn collect_changes(root: &str, patterns: &Ignore, events: &Vec<(ChangeKind, String)>) -> (r: Vec<
    (Evt, String),
>)
    requires
        forall|i: int|
            0 <= i < events@.len() ==> event_askable(
                root@,
                *patterns,
                (#[trigger] events@[i]).0,
                events@[i].1@,
            ),
    ensures
        change_texts(r@) == changes_below(root@, *patterns, events@, events@.len() as int),
{
    let mut r: Vec<(Evt, String)> = Vec::new();
    let mut i: usize = 0;
    proof {
        assert(change_texts(r@) =~= changes_below(root@, *patterns, events@, 0));
    }
    while i < events.len()
        invariant
            i <= events@.len(),
            forall|k: int|
                0 <= k < events@.len() ==> event_askable(
                    root@,
                    *patterns,
                    (#[trigger] events@[k]).0,
                    events@[k].1@,
                ),
            change_texts(r@) == changes_below(root@, *patterns, events@, i as int),
        decreases events@.len() - i,
    {
        let path = &events[i].1;
        proof {
            assert(event_askable(root@, *patterns, events@[i as int].0, events@[i as int].1@));
        }
        match evt_for(&events[i].0) {
            Some(evt) => {
                if keep_event(root, patterns, path.as_str(), &evt) {
                    let ghost before = r@;
                    r.push((evt, path.clone()));
                    proof {
                        assert(change_texts(r@) =~= change_texts(before).push((evt, path@)));
                    }
                }
            },
            None => {},
        }
        i = i + 1;
    }
    r
}

// ---------------------------------------------------------------------------
// The ids of each file
// ---------------------------------------------------------------------------

/// Whether one of the first `n` pairs gives the file `path` the id `id`: it is one
/// of the root's ids, and the path is known.
pub open spec fn gives(
    pairs: Seq<(String, Meta)>,
    mine: Set<Seq<char>>,
    n: int,
    path: Seq<char>,
    id: Seq<char>,
) -> bool {
    &&& path.len() > 0
    &&& mine.contains(id)
    &&& exists|i: int|
        0 <= i < n && (#[trigger] pairs[i]).0@ == id && pairs[i].1.path@ == path
}

/// Whether the map gives the file `path` the id `id`.
pub open spec fn has_id(
    map: Map<Seq<char>, Set<Seq<char>>>,
    path: Seq<char>,
    id: Seq<char>,
) -> bool {
    map.contains_key(path) && map[path].contains(id)
}

/// The ids of each file, from the stored pairs of id and metadata. Only ids of the
/// root itself count, so that a shared collection gives it no path of another root.
pub fn build_path_to_ids(pairs: &Vec<(String, Meta)>, my_ids: &IdSet) -> (r: PathIds)
    ensures
        r.wf(),
        forall|path: Seq<char>, id: Seq<char>|
            #[trigger] has_id(r@, path, id) <==> gives(
                pairs@,
                my_ids@,
                pairs@.len() as int,
                path,
                id,
            ),
        forall|path: Seq<char>| #[trigger]
            r@.contains_key(path) ==> r@[path] != Set::<Seq<char>>::empty(),
        covered(r@, my_ids@),
{
    let mut r = PathIds::new();
    let mut i: usize = 0;
    while i < pairs.len()
        invariant
            r.wf(),
            i <= pairs@.len(),
            forall|path: Seq<char>, id: Seq<char>|
                #[trigger] has_id(r@, path, id) <==> gives(pairs@, my_ids@, i as int, path, id),
            forall|path: Seq<char>| #[trigger]
                r@.contains_key(path) ==> r@[path] != Set::<Seq<char>>::empty(),
        decreases pairs@.len() - i,
    {
        let id = &pairs[i].0;
        let path = &pairs[i].1.path;
        let ghost before = r@;
        let ghost hit = my_ids@.contains(id@) && path@.len() > 0;
        if my_ids.contains(id.as_str()) && !path.as_str().is_empty() {
            r.add_id(path.clone(), id.clone());
        }
        proof {
            assert forall|p: Seq<char>, q: Seq<char>| #[trigger]
                has_id(r@, p, q) <==> gives(pairs@, my_ids@, i + 1, p, q) by {
                lemma_gives_step(pairs@, my_ids@, i as int, p, q);
                assert(has_id(before, p, q) <==> gives(pairs@, my_ids@, i as int, p, q));
            }
            if hit {
                assert(r@[path@].contains(id@));
            }
        }
        i = i + 1;
    }
    r
}

/// The stored pairs that were fetched; none where they could not be.
pub open spec fn fetched_pairs(pairs: Option<Vec<(String, Meta)>>) -> Seq<(String, Meta)> {
    match pairs {
        Some(v) => v@,
        None => Seq::empty(),
    }
}

/// What is known of a root that is to be watched: the ids of each file and the ids that
/// the root refers to, from its manifest and from the stored metadata. What could not be
/// fetched counts as empty.
pub fn load_state(ids: Option<IdSet>, pairs: Option<Vec<(String, Meta)>>) -> (r: (PathIds, IdSet))
    requires
        ids is Some ==> (ids->0).wf(),
    ensures
        r.0.wf(),
        r.1.wf(),
        r.1@ == match ids {
            Some(set) => set@,
            None => Set::<Seq<char>>::empty(),
        },
        forall|path: Seq<char>, id: Seq<char>|
            #[trigger] has_id(r.0@, path, id) <==> gives(
                fetched_pairs(pairs),
                r.1@,
                fetched_pairs(pairs).len() as int,
                path,
                id,
            ),
        forall|path: Seq<char>| #[trigger]
            r.0@.contains_key(path) ==> r.0@[path] != Set::<Seq<char>>::empty(),
        covered(r.0@, r.1@),
{
    let all = match ids {
        Some(set) => set,
        None => IdSet::new(),
    };
    let stored: Vec<(String, Meta)> = match pairs {
        Some(v) => v,
        None => Vec::new(),
    };
    proof {
        assert(stored@ =~= fetched_pairs(pairs));
    }
    (build_path_to_ids(&stored, &all), all)
}

proof fn lemma_gives_step(
    pairs: Seq<(String, Meta)>,
    mine: Set<Seq<char>>,
    n: int,
    path: Seq<char>,
    id: Seq<char>,
)
    requires
        0 <= n < pairs.len(),
    ensures
        gives(pairs, mine, n + 1, path, id) <==> gives(pairs, mine, n, path, id) || (path.len() > 0
            && mine.contains(id) && pairs[n].0@ == id && pairs[n].1.path@ == path),
{
    if gives(pairs, mine, n, path, id) {
        let i = choose|i: int|
            0 <= i < n && (#[trigger] pairs[i]).0@ == id && pairs[i].1.path@ == path;
        assert(pairs[i].0@ == id);
    }
}

// ---------------------------------------------------------------------------
// Actions
// ---------------------------------------------------------------------------

/// What a batch of events asks for one file.
#[derive(Debug)]
pub struct Action {
    /// The path relative to the root.
    pub rel: String,
    /// The path that the last event of the file named.
    pub path: String,
    /// Whether the file is to be deleted; else it is to be updated.
    pub delete: bool,
}

/// The file that the change `i` is about, where it lies in the root.
pub open spec fn change_rel(root: Seq<char>, changes: Seq<(Evt, String)>, i: int) -> Option<
    Seq<char>,
> {
    paths::relative(changes[i].1@, root)
}

/// Whether one of the first `n` changes is a deletion of `rel`.
pub open spec fn deletes(
    root: Seq<char>,
    changes: Seq<(Evt, String)>,
    n: int,
    rel: Seq<char>,
) -> bool {
    exists|i: int|
        0 <= i < n && #[trigger] change_rel(root, changes, i) == Some(rel) && changes[i].0
            == Evt::Delete
}

/// Whether one of the first `n` changes is a deletion or an update of `rel`.
pub open spec fn acts(root: Seq<char>, changes: Seq<(Evt, String)>, n: int, rel: Seq<char>) -> bool {
    exists|i: int|
        0 <= i < n && #[trigger] change_rel(root, changes, i) == Some(rel) && changes[i].0
            != Evt::Resync
}

/// The path that the last of the first `n` changes about `rel` names.
pub open spec fn last_path(
    root: Seq<char>,
    changes: Seq<(Evt, String)>,
    n: int,
    rel: Seq<char>,
) -> Option<Seq<char>>
    decreases n,
{
    if n <= 0 {
        None
    } else if change_rel(root, changes, n - 1) == Some(rel) {
        Some(changes[n - 1].1@)
    } else {
        last_path(root, changes, n - 1, rel)
    }
}

/// The relative paths of a list of actions.
pub open spec fn action_rels(v: Seq<Action>) -> Seq<Seq<char>> {
    Seq::new(v.len(), |i: int| v[i].rel@)
}

/// Position of the action for `rel`.
fn action_index(actions: &Vec<Action>, rel: &str) -> (r: Option<usize>)
    ensures
        match r {
            Some(i) => i < actions@.len() && actions@[i as int].rel@ == rel@,
            None => forall|i: int| 0 <= i < actions@.len() ==> (#[trigger] actions@[i]).rel@ != rel@,
        },
{
    let mut i: usize = 0;
    while i < actions.len()
        invariant
            i <= actions@.len(),
            forall|k: int| 0 <= k < i ==> (#[trigger] actions@[k]).rel@ != rel@,
        decreases actions@.len() - i,
    {
        if text::str_eq(actions[i].rel.as_str(), rel) {
            return Some(i);
        }
        i = i + 1;
    }
    None
}

/// The actions that a batch of events asks for: one for each file with a deletion
/// or an update, and a deletion wins over any update. Paths outside the root are
/// left out.
pub fn coalesce(root: &str, changes: &Vec<(Evt, String)>) -> (r: Vec<Action>)
    ensures
        action_rels(r@).no_duplicates(),
        forall|rel: Seq<char>| #[trigger]
            action_rels(r@).contains(rel) <==> acts(root@, changes@, changes@.len() as int, rel),
        forall|k: int|
            0 <= k < r@.len() ==> {
                &&& (#[trigger] r@[k]).delete == deletes(
                    root@,
                    changes@,
                    changes@.len() as int,
                    r@[k].rel@,
                )
                &&& last_path(root@, changes@, changes@.len() as int, r@[k].rel@) == Some(
                    r@[k].path@,
                )
            },
{
    let mut r: Vec<Action> = Vec::new();
    let mut i: usize = 0;
    while i < changes.len()
        invariant
            i <= changes@.len(),
            actions_ok(root@, changes@, i as int, r@),
        decreases changes@.len() - i,
    {
        let evt = changes[i].0;
        let path = &changes[i].1;
        let ghost before = r@;
        match paths::strip_prefix(path.as_str(), root) {
            Some(rel) => {
                let ghost about = rel@;
                match action_index(&r, rel.as_str()) {
                    Some(k) => {
                        let delete = r[k].delete || evt == Evt::Delete;
                        r.set(k, Action { rel, path: path.clone(), delete });
                        proof {
                            lemma_actions_again(root@, changes@, i as int, before, r@, k as int);
                        }
                    },
                    None => {
                        if evt != Evt::Resync {
                            r.push(Action { rel, path: path.clone(), delete: evt == Evt::Delete });
                        }
                        proof {
                            lemma_actions_first(root@, changes@, i as int, before, r@, about);
                        }
                    },
                }
            },
            None => {
                proof {
                    lemma_actions_skip(root@, changes@, i as int, r@);
                }
            },
        }
        i = i + 1;
    }
    r
}

/// What holds of the actions for the first `n` changes.
spec fn actions_ok(root: Seq<char>, changes: Seq<(Evt, String)>, n: int, v: Seq<Action>) -> bool {
    &&& action_rels(v).no_duplicates()
    &&& forall|rel: Seq<char>| #[trigger]
        action_rels(v).contains(rel) <==> acts(root, changes, n, rel)
    &&& forall|k: int|
        0 <= k < v.len() ==> {
            &&& (#[trigger] v[k]).delete == deletes(root, changes, n, v[k].rel@)
            &&& last_path(root, changes, n, v[k].rel@) == Some(v[k].path@)
        }
}

proof fn lemma_acts_step(root: Seq<char>, changes: Seq<(Evt, String)>, n: int, rel: Seq<char>)
    requires
        0 <= n < changes.len(),
    ensures
        acts(root, changes, n + 1, rel) <==> acts(root, changes, n, rel) || (change_rel(
            root,
            changes,
            n,
        ) == Some(rel) && changes[n].0 != Evt::Resync),
        deletes(root, changes, n + 1, rel) <==> deletes(root, changes, n, rel) || (change_rel(
            root,
            changes,
            n,
        ) == Some(rel) && changes[n].0 == Evt::Delete),
{
    if acts(root, changes, n, rel) {
        let i = choose|i: int|
            0 <= i < n && #[trigger] change_rel(root, changes, i) == Some(rel) && changes[i].0
                != Evt::Resync;
        assert(change_rel(root, changes, i) == Some(rel));
    }
    if deletes(root, changes, n, rel) {
        let i = choose|i: int|
            0 <= i < n && #[trigger] change_rel(root, changes, i) == Some(rel) && changes[i].0
                == Evt::Delete;
        assert(change_rel(root, changes, i) == Some(rel));
    }
}

proof fn lemma_actions_skip(root: Seq<char>, changes: Seq<(Evt, String)>, n: int, v: Seq<Action>)
    requires
        0 <= n < changes.len(),
        actions_ok(root, changes, n, v),
        change_rel(root, changes, n) is None,
    ensures
        actions_ok(root, changes, n + 1, v),
{
    assert forall|rel: Seq<char>| #[trigger] action_rels(v).contains(rel) <==> acts(
        root,
        changes,
        n + 1,
        rel,
    ) by {
        lemma_acts_step(root, changes, n, rel);
    }
    assert forall|k: int| 0 <= k < v.len() implies {
        &&& (#[trigger] v[k]).delete == deletes(root, changes, n + 1, v[k].rel@)
        &&& last_path(root, changes, n + 1, v[k].rel@) == Some(v[k].path@)
    } by {
        lemma_acts_step(root, changes, n, v[k].rel@);
    }
}

/// One more change about a file that has an action.
proof fn lemma_actions_again(
    root: Seq<char>,
    changes: Seq<(Evt, String)>,
    n: int,
    before: Seq<Action>,
    after: Seq<Action>,
    k: int,
)
    requires
        0 <= n < changes.len(),
        actions_ok(root, changes, n, before),
        0 <= k < before.len(),
        after.len() == before.len(),
        change_rel(root, changes, n) == Some(before[k].rel@),
        after == before.update(k, after[k]),
        after[k].rel@ == before[k].rel@,
        after[k].path@ == changes[n].1@,
        after[k].delete == (before[k].delete || changes[n].0 == Evt::Delete),
    ensures
        actions_ok(root, changes, n + 1, after),
{
    let rel = before[k].rel@;
    let a = action_rels(before);
    assert(action_rels(after) =~= a);
    assert(a[k] == rel);
    assert forall|r: Seq<char>| #[trigger] a.contains(r) <==> acts(root, changes, n + 1, r) by {
        lemma_acts_step(root, changes, n, r);
    }
    assert forall|j: int| 0 <= j < after.len() implies {
        &&& (#[trigger] after[j]).delete == deletes(root, changes, n + 1, after[j].rel@)
        &&& last_path(root, changes, n + 1, after[j].rel@) == Some(after[j].path@)
    } by {
        lemma_acts_step(root, changes, n, after[j].rel@);
        assert(before[j].delete == deletes(root, changes, n, before[j].rel@));
        assert(a[j] == before[j].rel@);
        if j != k {
            assert(a[j] != a[k]);
            assert(after[j] == before[j]);
        }
    }
}

/// The first change about a file that has no action yet.
proof fn lemma_actions_first(
    root: Seq<char>,
    changes: Seq<(Evt, String)>,
    n: int,
    before: Seq<Action>,
    after: Seq<Action>,
    rel: Seq<char>,
)
    requires
        0 <= n < changes.len(),
        actions_ok(root, changes, n, before),
        change_rel(root, changes, n) == Some(rel),
        forall|j: int| 0 <= j < before.len() ==> (#[trigger] before[j]).rel@ != rel,
        changes[n].0 == Evt::Resync ==> after == before,
        changes[n].0 != Evt::Resync ==> {
            &&& after.len() == before.len() + 1
            &&& after == before.push(after.last())
            &&& after.last().rel@ == rel
            &&& after.last().path@ == changes[n].1@
            &&& after.last().delete == (changes[n].0 == Evt::Delete)
        },
    ensures
        actions_ok(root, changes, n + 1, after),
{
    let a = action_rels(before);
    let b = action_rels(after);
    let added = changes[n].0 != Evt::Resync;
    assert(!a.contains(rel)) by {
        if a.contains(rel) {
            let j = choose|j: int| 0 <= j < a.len() && a[j] == rel;
            assert(before[j].rel@ == rel);
        }
    }
    assert(!acts(root, changes, n, rel));
    if deletes(root, changes, n, rel) {
        let i = choose|i: int|
            0 <= i < n && #[trigger] change_rel(root, changes, i) == Some(rel) && changes[i].0
                == Evt::Delete;
        assert(acts(root, changes, n, rel));
    }
    if added {
        assert(b =~= a.push(rel));
    }
    assert forall|r: Seq<char>| #[trigger] b.contains(r) <==> acts(root, changes, n + 1, r) by {
        lemma_acts_step(root, changes, n, r);
        assert(a.contains(r) <==> acts(root, changes, n, r));
        if added {
            if a.contains(r) {
                let j = choose|j: int| 0 <= j < a.len() && a[j] == r;
                assert(b[j] == r);
            }
            if r == rel {
                assert(b[before.len() as int] == r);
            }
            if b.contains(r) && r != rel {
                let j = choose|j: int| 0 <= j < b.len() && b[j] == r;
                assert(a[j] == r);
            }
        }
    }
    assert forall|j: int| 0 <= j < after.len() implies {
        &&& (#[trigger] after[j]).delete == deletes(root, changes, n + 1, after[j].rel@)
        &&& last_path(root, changes, n + 1, after[j].rel@) == Some(after[j].path@)
    } by {
        lemma_acts_step(root, changes, n, after[j].rel@);
        if j < before.len() {
            assert(after[j] == before[j]);
            assert(before[j].rel@ != rel);
        }
    }
}

// ---------------------------------------------------------------------------
// Plan
// ---------------------------------------------------------------------------

/// What was found of a file that an action is about.
#[derive(Debug)]
pub enum FileState {
    /// It is to be deleted, or does not exist.
    Gone,
    /// It is no text.
    Binary,
    /// Its records.
    Text(Vec<Record>),
}

/// A file that an action is about, by its relative path, and what was found of it.
#[derive(Debug)]
pub struct FileChange {
    pub rel: String,
    pub state: FileState,
}

/// Whether a file is gone: it is to be deleted, or does not exist. Nothing is read of
/// such a file.
pub fn is_gone(delete: bool, present: bool) -> (r: bool)
    ensures
        r == (delete || !present),
{
    delete || !present
}

/// What was found of a file: whether it is to be deleted, whether it exists, and, where
/// it was read, whether it is text and its records.
pub fn state_of(delete: bool, present: bool, ok: bool, records: Vec<Record>) -> (r: FileState)
    ensures
        r == if delete || !present {
            FileState::Gone
        } else if ok {
            FileState::Text(records)
        } else {
            FileState::Binary
        },
{
    if is_gone(delete, present) {
        FileState::Gone
    } else if ok {
        FileState::Text(records)
    } else {
        FileState::Binary
    }
}

pub enum StateView {
    Gone,
    Binary,
    Text(Seq<RecordView>),
}

/// A file and what was found of it, as mathematical values.
pub struct ChangeView {
    pub rel: Seq<char>,
    pub state: StateView,
}

impl View for FileChange {
    type V = ChangeView;

    open spec fn view(&self) -> ChangeView {
        ChangeView {
            rel: self.rel@,
            state: match self.state {
                FileState::Gone => StateView::Gone,
                FileState::Binary => StateView::Binary,
                FileState::Text(v) => StateView::Text(store::record_views(v@)),
            },
        }
    }
}

pub open spec fn change_views(v: Seq<FileChange>) -> Seq<ChangeView> {
    Seq::new(v.len(), |i: int| v[i]@)
}

/// What is to be done about a batch of changes.
#[verifier::ext_equal]
pub struct PlanView {
    /// The ids that the root refers to from then on.
    pub target: Set<Seq<char>>,
    /// The files that are gone.
    pub removed: Set<Seq<char>>,
    /// The files with a new set of ids.
    pub paths: Map<Seq<char>, Set<Seq<char>>>,
    /// The records to add, in order.
    pub records: Seq<RecordView>,
    /// How many ids the root no longer refers to.
    pub deleted: nat,
}

/// Whether the file `path` is `rel` or lies below it.
pub open spec fn beneath(path: Seq<char>, rel: Seq<char>) -> bool {
    path == rel || text::has_prefix(path, rel + seq!['/'])
}

/// The ids of the files that are `rel` or lie below it.
pub open spec fn ids_beneath(map: Map<Seq<char>, Set<Seq<char>>>, rel: Seq<char>) -> Set<Seq<char>> {
    Set::new(
        |id: Seq<char>|
            exists|path: Seq<char>| #[trigger] has_id(map, path, id) && beneath(path, rel),
    )
}

/// The files that are `rel` or lie below it.
pub open spec fn paths_beneath(map: Map<Seq<char>, Set<Seq<char>>>, rel: Seq<char>) -> Set<
    Seq<char>,
> {
    map.dom().filter(|path: Seq<char>| beneath(path, rel))
}

/// The ids that a file had.
pub open spec fn ids_at(map: Map<Seq<char>, Set<Seq<char>>>, rel: Seq<char>) -> Set<Seq<char>> {
    if map.contains_key(rel) {
        map[rel]
    } else {
        Set::empty()
    }
}

/// `queued` with those of `records` added whose id is neither among `all` nor
/// queued already.
pub open spec fn queue(
    queued: Seq<RecordView>,
    records: Seq<RecordView>,
    all: Set<Seq<char>>,
) -> Seq<RecordView>
    decreases records.len(),
{
    if records.len() == 0 {
        queued
    } else {
        let q = queue(queued, records.drop_last(), all);
        let r = records.last();
        if all.contains(r.id) || oneshot::ids_of(q).contains(r.id) {
            q
        } else {
            q.push(r)
        }
    }
}

/// The plan with one more change. `map` holds the ids of each file and `all` the
/// ids that the root refers to before the batch.
pub open spec fn plan_step(
    p: PlanView,
    c: ChangeView,
    map: Map<Seq<char>, Set<Seq<char>>>,
    all: Set<Seq<char>>,
) -> PlanView {
    match c.state {
        StateView::Gone => {
            let target = p.target.difference(ids_beneath(map, c.rel));
            PlanView {
                target,
                removed: p.removed.union(paths_beneath(map, c.rel)),
                deleted: (p.deleted + p.target.len() - target.len()) as nat,
                ..p
            }
        },
        StateView::Binary => p,
        StateView::Text(records) => {
            let seen = oneshot::ids_of(records);
            let kept = p.target.difference(ids_at(map, c.rel).difference(seen));
            PlanView {
                target: kept.union(seen),
                paths: p.paths.insert(c.rel, seen),
                records: queue(p.records, records, all),
                deleted: (p.deleted + p.target.len() - kept.len()) as nat,
                ..p
            }
        },
    }
}

/// The plan for a list of changes.
pub open spec fn plan_of(
    changes: Seq<ChangeView>,
    map: Map<Seq<char>, Set<Seq<char>>>,
    all: Set<Seq<char>>,
) -> PlanView
    decreases changes.len(),
{
    if changes.len() == 0 {
        PlanView {
            target: all,
            removed: Set::empty(),
            paths: Map::empty(),
            records: Seq::empty(),
            deleted: 0,
        }
    } else {
        plan_step(plan_of(changes.drop_last(), map, all), changes.last(), map, all)
    }
}

/// How many records the changes bring.
pub open spec fn record_count(changes: Seq<ChangeView>) -> nat
    decreases changes.len(),
{
    if changes.len() == 0 {
        0
    } else {
        record_count(changes.drop_last()) + match changes.last().state {
            StateView::Text(records) => records.len(),
            _ => 0,
        }
    }
}

/// What is to be done about a batch of changes.
pub struct Plan {
    target: IdSet,
    removed: Vec<String>,
    paths: PathIds,
    records: Vec<Record>,
    queued: IdSet,
    deleted: usize,
}

impl View for Plan {
    type V = PlanView;

    closed spec fn view(&self) -> PlanView {
        PlanView {
            target: self.target@,
            removed: text::texts(self.removed@).to_set(),
            paths: self.paths@,
            records: store::record_views(self.records@),
            deleted: self.deleted as nat,
        }
    }
}

impl Plan {
    /// The sets are well-formed, and the queued ids are those of the records to add.
    pub closed spec fn wf(self) -> bool {
        &&& self.target.wf()
        &&& self.paths.wf()
        &&& self.queued.wf()
        &&& self.queued@ == oneshot::ids_of(store::record_views(self.records@))
    }

    /// Whether there is nothing to do: nothing to add, nothing to drop.
    pub fn is_noop(&self) -> (r: bool)
        ensures
            r == (self@.records.len() == 0 && self@.deleted == 0 && self@.removed == Set::<
                Seq<char>,
            >::empty()),
    {
        proof {
            if self.removed@.len() > 0 {
                let t = text::texts(self.removed@);
                assert(t.contains(t[0]));
                assert(t.to_set().contains(t[0]));
            } else {
                assert(text::texts(self.removed@).to_set() =~= Set::<Seq<char>>::empty());
            }
        }
        self.records.len() == 0 && self.deleted == 0 && self.removed.len() == 0
    }

    /// The ids that the root refers to from then on, for its manifest.
    pub fn target(&self) -> (r: &IdSet)
        requires
            self.wf(),
        ensures
            r.wf(),
            r@ == self@.target,
    {
        &self.target
    }

    /// The records to add.
    pub fn records(&self) -> (r: &Vec<Record>)
        ensures
            store::record_views(r@) == self@.records,
    {
        &self.records
    }
}

/// Takes the ids of `gone` out of `target`; says how many were there.
fn drop_ids(target: &mut IdSet, gone: &IdSet) -> (n: usize)
    requires
        old(target).wf(),
        gone.wf(),
    ensures
        final(target).wf(),
        final(target)@ == old(target)@.difference(gone@),
        n == old(target)@.len() - final(target)@.len(),
{
    let none = IdSet::new();
    let n = drop_ids_but(target, gone, &none);
    proof {
        assert(gone@.difference(none@) =~= gone@);
    }
    n
}

/// Takes the ids of `gone` that are not in `but` out of `target`; says how many
/// were there.
fn drop_ids_but(target: &mut IdSet, gone: &IdSet, but: &IdSet) -> (n: usize)
    requires
        old(target).wf(),
        gone.wf(),
        but.wf(),
    ensures
        final(target).wf(),
        final(target)@ == old(target)@.difference(gone@.difference(but@)),
        n == old(target)@.len() - final(target)@.len(),
{
    let list = gone.to_vec();
    let ghost all = text::texts(list@);
    let ghost start = target@;
    let before: usize = target.len();
    let mut n: usize = 0;
    let mut i: usize = 0;
    proof {
        target.lemma_finite();
        assert(start.difference(all.take(0).to_set().difference(but@)) =~= start);
    }
    while i < list.len()
        invariant
            target.wf(),
            target@.finite(),
            but.wf(),
            all == text::texts(list@),
            i <= list@.len(),
            before == start.len(),
            n + target@.len() == before,
            target@ == start.difference(all.take(i as int).to_set().difference(but@)),
        decreases list@.len() - i,
    {
        let id = &list[i];
        proof {
            assert(all[i as int] == id@);
            ids::lemma_to_set_step(all, i as int);
        }
        let ghost now = target@;
        if !but.contains(id.as_str()) {
            let was = target.remove(id.as_str());
            proof {
                target.lemma_finite();
                if !was {
                    assert(now.remove(id@) =~= now);
                } else {
                    assert(now.contains(id@));
                    assert(now.remove(id@).len() == now.len() - 1);
                }
            }
            if was {
                n = n + 1;
            }
        }
        proof {
            assert(target@ =~= start.difference(all.take(i + 1).to_set().difference(but@)));
        }
        i = i + 1;
    }
    proof {
        assert(all.take(list@.len() as int) =~= all);
        assert(all.to_set() =~= gone@) by {
            assert forall|k: Seq<char>| all.to_set().contains(k) == gone@.contains(k) by {
                assert(all.contains(k) <==> gone@.contains(k));
            }
        }
    }
    n
}

/// The ids of those of the first `n` paths that are `rel` or lie below it.
spec fn ids_among(
    map: Map<Seq<char>, Set<Seq<char>>>,
    list: Seq<Seq<char>>,
    n: int,
    rel: Seq<char>,
) -> Set<Seq<char>> {
    Set::new(
        |id: Seq<char>|
            exists|j: int| 0 <= j < n && beneath(#[trigger] list[j], rel) && has_id(map, list[j], id),
    )
}

/// Those of the first `n` paths that are `rel` or lie below it.
spec fn paths_among(list: Seq<Seq<char>>, n: int, rel: Seq<char>) -> Set<Seq<char>> {
    Set::new(|path: Seq<char>| exists|j: int| 0 <= j < n && #[trigger] list[j] == path && beneath(path, rel))
}

proof fn lemma_among_step(
    map: Map<Seq<char>, Set<Seq<char>>>,
    list: Seq<Seq<char>>,
    n: int,
    rel: Seq<char>,
)
    requires
        0 <= n < list.len(),
        map.contains_key(list[n]),
    ensures
        ids_among(map, list, n + 1, rel) == if beneath(list[n], rel) {
            ids_among(map, list, n, rel).union(map[list[n]])
        } else {
            ids_among(map, list, n, rel)
        },
        paths_among(list, n + 1, rel) == if beneath(list[n], rel) {
            paths_among(list, n, rel).insert(list[n])
        } else {
            paths_among(list, n, rel)
        },
{
    let a = ids_among(map, list, n, rel);
    let b = ids_among(map, list, n + 1, rel);
    let hit = beneath(list[n], rel);
    assert forall|id: Seq<char>| b.contains(id) == (a.contains(id) || (hit && map[list[n]].contains(
        id,
    ))) by {
        if a.contains(id) {
            let j = choose|j: int|
                0 <= j < n && beneath(#[trigger] list[j], rel) && has_id(map, list[j], id);
            assert(beneath(list[j], rel) && has_id(map, list[j], id));
        }
        if hit && map[list[n]].contains(id) {
            assert(beneath(list[n], rel) && has_id(map, list[n], id));
        }
    }
    if hit {
        assert(b =~= a.union(map[list[n]]));
    } else {
        assert(b =~= a);
    }
    let c = paths_among(list, n, rel);
    let d = paths_among(list, n + 1, rel);
    assert forall|path: Seq<char>| d.contains(path) == (c.contains(path) || (hit && path
        == list[n])) by {
        if c.contains(path) {
            let j = choose|j: int| 0 <= j < n && #[trigger] list[j] == path && beneath(path, rel);
            assert(list[j] == path);
        }
        if hit && path == list[n] {
            assert(list[n] == path);
        }
    }
    if hit {
        assert(d =~= c.insert(list[n]));
    } else {
        assert(d =~= c);
    }
}

proof fn lemma_among_all(
    map: Map<Seq<char>, Set<Seq<char>>>,
    list: Seq<Seq<char>>,
    rel: Seq<char>,
)
    requires
        forall|k: Seq<char>| #[trigger] list.contains(k) <==> map.contains_key(k),
    ensures
        ids_among(map, list, list.len() as int, rel) == ids_beneath(map, rel),
        paths_among(list, list.len() as int, rel) == paths_beneath(map, rel),
{
    let n = list.len() as int;
    assert forall|id: Seq<char>| ids_among(map, list, n, rel).contains(id) == ids_beneath(
        map,
        rel,
    ).contains(id) by {
        if ids_among(map, list, n, rel).contains(id) {
            let j = choose|j: int|
                0 <= j < n && beneath(#[trigger] list[j], rel) && has_id(map, list[j], id);
            assert(has_id(map, list[j], id) && beneath(list[j], rel));
        }
        if ids_beneath(map, rel).contains(id) {
            let path = choose|path: Seq<char>| #[trigger]
                has_id(map, path, id) && beneath(path, rel);
            assert(list.contains(path));
            let j = choose|j: int| 0 <= j < list.len() && list[j] == path;
            assert(beneath(list[j], rel) && has_id(map, list[j], id));
        }
    }
    assert(ids_among(map, list, n, rel) =~= ids_beneath(map, rel));
    assert forall|path: Seq<char>| paths_among(list, n, rel).contains(path) == paths_beneath(
        map,
        rel,
    ).contains(path) by {
        if paths_among(list, n, rel).contains(path) {
            let j = choose|j: int| 0 <= j < n && #[trigger] list[j] == path && beneath(path, rel);
            assert(list.contains(path));
        }
        if paths_beneath(map, rel).contains(path) {
            assert(list.contains(path));
            let j = choose|j: int| 0 <= j < list.len() && list[j] == path;
            assert(list[j] == path);
        }
    }
    assert(paths_among(list, n, rel) =~= paths_beneath(map, rel));
}

impl Plan {
    /// A plan that changes nothing.
    fn new(all: &IdSet) -> (r: Plan)
        requires
            all.wf(),
        ensures
            r.wf(),
            forall|map: Map<Seq<char>, Set<Seq<char>>>| r@ == #[trigger] plan_of(
                Seq::empty(),
                map,
                all@,
            ),
    {
        let r = Plan {
            target: all.duplicate(),
            removed: Vec::new(),
            paths: PathIds::new(),
            records: Vec::new(),
            queued: IdSet::new(),
            deleted: 0,
        };
        proof {
            assert(r@.removed =~= Set::<Seq<char>>::empty());
            assert(r@.records =~= Seq::<RecordView>::empty());
        }
        r
    }

    /// A file or directory is gone: the root no longer refers to the ids of the files
    /// at its path or below it.
    fn note_gone(&mut self, rel: &str, map: &PathIds)
        requires
            old(self).wf(),
            map.wf(),
            old(self)@.deleted + old(self)@.target.len() <= usize::MAX,
        ensures
            final(self).wf(),
            forall|all: Set<Seq<char>>| final(self)@ == #[trigger] plan_step(
                old(self)@,
                ChangeView { rel: rel@, state: StateView::Gone },
                map@,
                all,
            ),
            final(self)@.deleted + final(self)@.target.len() == old(self)@.deleted
                + old(self)@.target.len(),
    {
        let list = map.keys();
        let ghost keys = text::texts(list@);
        let mut prefix = rel.to_string();
        prefix.push('/');
        proof {
            assert(prefix@ =~= rel@ + seq!['/']);
            self.target.lemma_finite();
            assert(self@.target.difference(ids_among(map@, keys, 0, rel@)) =~= self@.target);
            assert(self@.removed.union(paths_among(keys, 0, rel@)) =~= self@.removed);
        }
        let mut i: usize = 0;
        while i < list.len()
            invariant
                self.wf(),
                map.wf(),
                keys == text::texts(list@),
                forall|k: Seq<char>| #[trigger] keys.contains(k) <==> map@.contains_key(k),
                prefix@ == rel@ + seq!['/'],
                i <= list@.len(),
                self@.deleted + self@.target.len() == old(self)@.deleted + old(self)@.target.len(),
                old(self)@.deleted + old(self)@.target.len() <= usize::MAX,
                self@.target == old(self)@.target.difference(
                    ids_among(map@, keys, i as int, rel@),
                ),
                self@.removed == old(self)@.removed.union(paths_among(keys, i as int, rel@)),
                self@.paths == old(self)@.paths,
                self@.records == old(self)@.records,
            decreases list@.len() - i,
        {
            let path = &list[i];
            proof {
                assert(keys[i as int] == path@);
                assert(keys.contains(path@));
                lemma_among_step(map@, keys, i as int, rel@);
            }
            if text::str_eq(path.as_str(), rel) || text::starts_with(
                path.as_str(),
                prefix.as_str(),
            ) {
                let ghost target = self@.target;
                let ghost removed = self@.removed;
                let ghost before = self.removed@;
                proof {
                    self.target.lemma_finite();
                }
                match map.get(path.as_str()) {
                    Some(ids) => {
                        let n = drop_ids(&mut self.target, ids);
                        proof {
                            vstd::set_lib::lemma_len_subset(self.target@, target);
                            assert(self.target@.len() + n == target.len());
                        }
                        self.deleted = self.deleted + n;
                    },
                    None => {},
                }
                self.removed.push(path.clone());
                proof {
                    let t = text::texts(self.removed@);
                    assert(t.take(before.len() as int) =~= text::texts(before));
                    assert(t.take((before.len() + 1) as int) =~= t);
                    ids::lemma_to_set_step(t, before.len() as int);
                    let gone = ids_among(map@, keys, i as int, rel@);
                    assert(target.difference(map@[path@]) =~= old(self)@.target.difference(
                        gone.union(map@[path@]),
                    ));
                    assert(removed.insert(path@) =~= old(self)@.removed.union(
                        paths_among(keys, i as int, rel@).insert(path@),
                    ));
                }
            }
            i = i + 1;
        }
        proof {
            lemma_among_all(map@, keys, rel@);
        }
    }

    /// A file holds these records: the root refers to their ids, no longer to others
    /// that the file had, and those that are new are added.
    fn note_text(&mut self, rel: &str, records: &Vec<Record>, map: &PathIds, all: &IdSet)
        requires
            old(self).wf(),
            map.wf(),
            all.wf(),
            old(self)@.deleted + old(self)@.target.len() + records@.len() <= usize::MAX,
        ensures
            final(self).wf(),
            final(self)@ == plan_step(
                old(self)@,
                ChangeView {
                    rel: rel@,
                    state: StateView::Text(store::record_views(records@)),
                },
                map@,
                all@,
            ),
            final(self)@.deleted + final(self)@.target.len() <= old(self)@.deleted
                + old(self)@.target.len() + records@.len(),
    {
        let ghost views = store::record_views(records@);
        let mut seen = IdSet::new();
        let mut i: usize = 0;
        proof {
            assert(views.take(0) =~= Seq::<RecordView>::empty());
        }
        while i < records.len()
            invariant
                seen.wf(),
                views == store::record_views(records@),
                i <= records@.len(),
                seen@ == oneshot::ids_of(views.take(i as int)),
            decreases records@.len() - i,
        {
            seen.insert(records[i].id.clone());
            proof {
                assert(views.take(i + 1).drop_last() =~= views.take(i as int));
            }
            i = i + 1;
        }
        proof {
            assert(views.take(records@.len() as int) =~= views);
            self.target.lemma_finite();
        }
        match map.get(rel) {
            Some(had) => {
                let n = drop_ids_but(&mut self.target, had, &seen);
                proof {
                    vstd::set_lib::lemma_len_subset(self.target@, old(self)@.target);
                }
                self.deleted = self.deleted + n;
            },
            None => {
                proof {
                    assert(self.target@.difference(Set::empty().difference(seen@)) =~= self.target@);
                }
            },
        }
        let ghost kept = self.target@;
        let ghost start = self@.records;
        proof {
            assert(kept.union(oneshot::ids_of(views.take(0))) =~= kept);
        }
        let mut k: usize = 0;
        while k < records.len()
            invariant
                self.wf(),
                all.wf(),
                views == store::record_views(records@),
                k <= records@.len(),
                self.target@ == kept.union(oneshot::ids_of(views.take(k as int))),
                self@.records == queue(start, views.take(k as int), all@),
                self@.removed == old(self)@.removed,
                self@.paths == old(self)@.paths,
                self@.deleted == old(self)@.deleted + old(self)@.target.len() - kept.len(),
                self.target@.len() <= kept.len() + k,
            decreases records@.len() - k,
        {
            let r = &records[k];
            proof {
                assert(views[k as int] == r@);
                assert(views.take(k + 1).drop_last() =~= views.take(k as int));
                self.target.lemma_finite();
            }
            let ghost target = self.target@;
            self.target.insert(r.id.clone());
            proof {
                assert(self.target@ =~= kept.union(oneshot::ids_of(views.take(k + 1))));
                if target.contains(r.id@) {
                    assert(target.insert(r.id@) =~= target);
                }
            }
            if !all.contains(r.id.as_str()) && !self.queued.contains(r.id.as_str()) {
                let ghost before = self.records@;
                self.queued.insert(r.id.clone());
                self.records.push(store::copy_record(r));
                proof {
                    let a = store::record_views(before);
                    let b = store::record_views(self.records@);
                    assert(b =~= a.push(r@));
                    assert(b.drop_last() =~= a);
                }
            }
            k = k + 1;
        }
        self.paths.insert(rel.to_string(), seen);
    }
}

proof fn lemma_record_count_step(changes: Seq<ChangeView>, n: int)
    requires
        0 <= n <= changes.len(),
    ensures
        record_count(changes.take(n)) <= record_count(changes),
    decreases changes.len(),
{
    if n < changes.len() {
        lemma_record_count_step(changes.drop_last(), n);
        assert(changes.drop_last().take(n) =~= changes.take(n));
    } else {
        assert(changes.take(n) =~= changes);
    }
}

/// What is to be done about a batch of changes, when `path_to_ids` holds the ids of
/// each file and `all_ids` those that the root refers to.
pub fn plan_changes(changes: &Vec<FileChange>, path_to_ids: &PathIds, all_ids: &IdSet) -> (p: Plan)
    requires
        path_to_ids.wf(),
        all_ids.wf(),
        all_ids@.len() + record_count(change_views(changes@)) <= usize::MAX,
    ensures
        p.wf(),
        p@ == plan_of(change_views(changes@), path_to_ids@, all_ids@),
{
    let ghost views = change_views(changes@);
    let mut p = Plan::new(all_ids);
    let mut i: usize = 0;
    proof {
        assert(views.take(0) =~= Seq::<ChangeView>::empty());
        assert(p@ == plan_of(Seq::empty(), path_to_ids@, all_ids@));
    }
    while i < changes.len()
        invariant
            p.wf(),
            path_to_ids.wf(),
            all_ids.wf(),
            views == change_views(changes@),
            i <= changes@.len(),
            p@ == plan_of(views.take(i as int), path_to_ids@, all_ids@),
            p@.deleted + p@.target.len() <= all_ids@.len() + record_count(views.take(i as int)),
            all_ids@.len() + record_count(views) <= usize::MAX,
        decreases changes@.len() - i,
    {
        let c = &changes[i];
        proof {
            assert(views[i as int] == c@);
            assert(views.take(i + 1).drop_last() =~= views.take(i as int));
            lemma_record_count_step(views, i + 1);
        }
        let ghost before = p@;
        match &c.state {
            FileState::Gone => {
                p.note_gone(c.rel.as_str(), path_to_ids);
                proof {
                    assert(p@ == plan_step(before, c@, path_to_ids@, all_ids@));
                }
            },
            FileState::Binary => {},
            FileState::Text(records) => {
                p.note_text(c.rel.as_str(), records, path_to_ids, all_ids);
            },
        }
        i = i + 1;
    }
    proof {
        assert(views.take(changes@.len() as int) =~= views);
    }
    p
}

/// The ids of each file once a plan is carried out.
pub open spec fn planned_paths(map: Map<Seq<char>, Set<Seq<char>>>, p: PlanView) -> Map<
    Seq<char>,
    Set<Seq<char>>,
> {
    map.remove_keys(p.removed).union_prefer_right(p.paths)
}

/// Whether a plan leaves everything as it is.
pub open spec fn is_idle(p: PlanView) -> bool {
    p.records.len() == 0 && p.deleted == 0 && p.removed == Set::<Seq<char>>::empty()
}

/// Ends a batch. `written` says whether the manifest was written, and `stored`
/// whether the new records were added, which is tried only after that. An idle plan,
/// and one whose manifest could not be written, change nothing. Any other takes
/// effect, whether or not the records were added: what is missing is made up for by
/// the next full scan. Returns how many records were added and how many ids the
/// root no longer refers to.
pub fn process_changes(
    plan: Plan,
    written: bool,
    stored: bool,
    path_to_ids: &mut PathIds,
    all_ids: &mut IdSet,
) -> (r: (usize, usize))
    requires
        plan.wf(),
        old(path_to_ids).wf(),
        old(all_ids).wf(),
    ensures
        final(path_to_ids).wf(),
        final(all_ids).wf(),
        is_idle(plan@) || !written ==> {
            &&& r == (0usize, 0usize)
            &&& final(path_to_ids)@ == old(path_to_ids)@
            &&& final(all_ids)@ == old(all_ids)@
        },
        !is_idle(plan@) && written ==> {
            &&& r.0 == if stored {
                plan@.records.len()
            } else {
                0
            }
            &&& r.1 == plan@.deleted
            &&& final(path_to_ids)@ == planned_paths(old(path_to_ids)@, plan@)
            &&& final(all_ids)@ == plan@.target
        },
{
    if plan.is_noop() || !written {
        return (0, 0);
    }
    let ghost before = path_to_ids@;
    let ghost gone = text::texts(plan.removed@);
    let added: usize = if stored {
        plan.records.len()
    } else {
        0
    };
    let mut i: usize = 0;
    proof {
        assert(before.remove_keys(gone.take(0).to_set()) =~= before);
    }
    while i < plan.removed.len()
        invariant
            path_to_ids.wf(),
            plan.wf(),
            gone == text::texts(plan.removed@),
            i <= plan.removed@.len(),
            path_to_ids@ == before.remove_keys(gone.take(i as int).to_set()),
        decreases plan.removed@.len() - i,
    {
        let ghost now = path_to_ids@;
        path_to_ids.remove(plan.removed[i].as_str());
        proof {
            ids::lemma_to_set_step(gone, i as int);
            assert(path_to_ids@ =~= before.remove_keys(gone.take(i + 1).to_set()));
        }
        i = i + 1;
    }
    proof {
        assert(gone.take(plan.removed@.len() as int) =~= gone);
    }
    let ghost middle = path_to_ids@;
    let list = plan.paths.keys();
    let ghost keys = text::texts(list@);
    let mut k: usize = 0;
    proof {
        assert(path_to_ids@ =~= middle.union_prefer_right(plan.paths@.restrict(keys.take(0).to_set())));
    }
    while k < list.len()
        invariant
            path_to_ids.wf(),
            plan.wf(),
            keys == text::texts(list@),
            forall|p: Seq<char>| #[trigger] keys.contains(p) <==> plan.paths@.contains_key(p),
            k <= list@.len(),
            path_to_ids@ == middle.union_prefer_right(
                plan.paths@.restrict(keys.take(k as int).to_set()),
            ),
        decreases list@.len() - k,
    {
        proof {
            assert(keys[k as int] == list@[k as int]@);
            assert(keys.contains(list@[k as int]@));
            ids::lemma_to_set_step(keys, k as int);
        }
        match plan.paths.get(list[k].as_str()) {
            Some(ids) => {
                path_to_ids.insert(list[k].clone(), ids.duplicate());
            },
            None => {},
        }
        proof {
            assert(path_to_ids@ =~= middle.union_prefer_right(
                plan.paths@.restrict(keys.take(k + 1).to_set()),
            ));
        }
        k = k + 1;
    }
    proof {
        assert(keys.take(list@.len() as int) =~= keys);
        assert(plan.paths@.restrict(keys.to_set()) =~= plan.paths@) by {
            assert forall|p: Seq<char>| plan.paths@.contains_key(p) implies keys.to_set().contains(
                p,
            ) by {
                assert(keys.contains(p));
            }
        }
    }
    let deleted: usize = plan.deleted;
    *all_ids = plan.target;
    (added, deleted)
}

// ---------------------------------------------------------------------------
// Requests
// ---------------------------------------------------------------------------

/// A step in applying a plan. No step deletes what is stored.
#[derive(Debug, Clone, Copy, PartialEq, Eq, Structural)]
pub enum LiveStep {
    /// The plan is made.
    Begin,
    /// Write what the root refers to from now on into its manifest.
    WriteManifest,
    /// Embed the records to add, with the model that is loaded where it is first needed.
    Embed,
    /// Add the records.
    Add,
    /// End the batch, with whether the manifest was written and the records were added.
    End { written: bool, stored: bool },
}

/// What follows a step that succeeded or failed, where the plan is `idle` or not and
/// has records to add or not. An idle plan makes no request. The manifest is written
/// first; nothing follows where that failed. The records are embedded and then added.
pub open spec fn live_step_after(step: LiveStep, ok: bool, idle: bool, new_records: bool) -> LiveStep {
    match step {
        LiveStep::Begin => if idle {
            LiveStep::End { written: false, stored: false }
        } else {
            LiveStep::WriteManifest
        },
        LiveStep::WriteManifest => if ok && new_records {
            LiveStep::Embed
        } else {
            LiveStep::End { written: ok, stored: false }
        },
        LiveStep::Embed => if ok {
            LiveStep::Add
        } else {
            LiveStep::End { written: true, stored: false }
        },
        LiveStep::Add => LiveStep::End { written: true, stored: ok },
        LiveStep::End { written, stored } => LiveStep::End { written, stored },
    }
}

/// What follows a step in applying a plan.
pub fn next_live_step(step: LiveStep, ok: bool, idle: bool, new_records: bool) -> (r: LiveStep)
    ensures
        r == live_step_after(step, ok, idle, new_records),
{
    match step {
        LiveStep::Begin => {
            if idle {
                LiveStep::End { written: false, stored: false }
            } else {
                LiveStep::WriteManifest
            }
        },
        LiveStep::WriteManifest => {
            if ok && new_records {
                LiveStep::Embed
            } else {
                LiveStep::End { written: ok, stored: false }
            }
        },
        LiveStep::Embed => {
            if ok {
                LiveStep::Add
            } else {
                LiveStep::End { written: true, stored: false }
            }
        },
        LiveStep::Add => LiveStep::End { written: true, stored: ok },
        LiveStep::End { written, stored } => LiveStep::End { written, stored },
    }
}

/// The steps in applying a plan, given which of them succeed, from the first on.
pub open spec fn live_steps(outcomes: Seq<bool>, idle: bool, new_records: bool) -> Seq<LiveStep> {
    steps::trace(
        LiveStep::Begin,
        |step: LiveStep, ok: bool| live_step_after(step, ok, idle, new_records),
        outcomes,
    )
}

/// What is known at the step `n` of applying a plan.
spec fn live_step_known(outcomes: Seq<bool>, idle: bool, new_records: bool, n: int) -> bool {
    match live_steps(outcomes, idle, new_records)[n] {
        LiveStep::Begin => n == 0,
        LiveStep::WriteManifest => n == 1 && !idle,
        LiveStep::Embed => n == 2 && !idle && new_records && outcomes[1],
        LiveStep::Add => n == 3 && !idle && new_records && outcomes[1] && outcomes[2],
        LiveStep::End { written, stored } => {
            &&& n >= 1
            &&& written <==> !idle && n >= 2 && outcomes[1]
            &&& stored <==> !idle && new_records && n >= 4 && outcomes[1] && outcomes[2]
                && outcomes[3]
        },
    }
}

proof fn lemma_live_steps(outcomes: Seq<bool>, idle: bool, new_records: bool, n: int)
    requires
        0 <= n <= outcomes.len(),
    ensures
        live_step_known(outcomes, idle, new_records, n),
    decreases n,
{
    steps::lemma_trace(
        LiveStep::Begin,
        |step: LiveStep, ok: bool| live_step_after(step, ok, idle, new_records),
        outcomes,
    );
    if n > 0 {
        lemma_live_steps(outcomes, idle, new_records, n - 1);
        assert(live_steps(outcomes, idle, new_records)[n] == live_step_after(
            live_steps(outcomes, idle, new_records)[n - 1],
            outcomes[n - 1],
            idle,
            new_records,
        ));
    }
}

// ---------------------------------------------------------------------------
// Laws
// ---------------------------------------------------------------------------

/// A batch of events makes, in order, a deletion for each removal of a path in the root,
/// at whatever depth and of whatever kind, and an update for each creation and change of
/// a file in the root that is of an indexed kind and not ignored; and nothing else.
pub proof fn law_changes_of_a_batch(
    root: Seq<char>,
    patterns: Ignore,
    events: Seq<(ChangeKind, String)>,
    n: int,
)
    requires
        0 <= n <= events.len(),
    ensures
        changes_below(root, patterns, events, n) == events.take(n).filter_map(
            |e: (ChangeKind, String)|
                if !paths::components(root).is_prefix_of(paths::components(e.1@)) {
                    None
                } else if e.0 == ChangeKind::Remove {
                    Some((Evt::Delete, e.1@))
                } else if (e.0 == ChangeKind::Create || e.0 == ChangeKind::Modify)
                    && walk::indexable(e.1@) && !walk::ignores(
                    patterns.root(),
                    patterns.lines(),
                    paths::relative(e.1@, root)->0,
                    false,
                ) {
                    Some((Evt::Upsert, e.1@))
                } else {
                    None
                },
        ),
    decreases n,
{
    let f = |e: (ChangeKind, String)|
        if !paths::components(root).is_prefix_of(paths::components(e.1@)) {
            None
        } else if e.0 == ChangeKind::Remove {
            Some((Evt::Delete, e.1@))
        } else if (e.0 == ChangeKind::Create || e.0 == ChangeKind::Modify) && walk::indexable(e.1@)
            && !walk::ignores(
            patterns.root(),
            patterns.lines(),
            paths::relative(e.1@, root)->0,
            false,
        ) {
            Some((Evt::Upsert, e.1@))
        } else {
            None
        };
    if n > 0 {
        law_changes_of_a_batch(root, patterns, events, n - 1);
        events.lemma_filter_map_take_succ(f, n - 1);
        let e = events[n - 1];
        paths::lemma_within(e.1@, root);
        walk::law_watched_files(root, patterns, e.1@);
        let head = changes_below(root, patterns, events, n - 1);
        assert(event_kept(root, patterns, e.0, e.1@) == (f(e) is Some));
        if f(e) is Some {
            let c = (change_of(e.0)->0, e.1@);
            assert(f(e) == Some(c));
            assert(head.push(c) =~= head + seq![c]);
        } else {
            assert(head =~= head + Seq::<(Evt, Seq<char>)>::empty());
        }
    } else {
        assert(events.take(0).filter_map(f) =~= Seq::<(Evt, Seq<char>)>::empty());
    }
}

/// A removal of any path in the root is applied, and of none outside it.
pub proof fn law_removals_are_applied(
    root: Seq<char>,
    patterns: Ignore,
    events: Seq<(ChangeKind, String)>,
    path: Seq<char>,
)
    ensures
        changes_below(root, patterns, events, events.len() as int).contains((Evt::Delete, path))
            <==> paths::components(root).is_prefix_of(paths::components(path)) && exists|i: int|
            0 <= i < events.len() && (#[trigger] events[i]).0 == ChangeKind::Remove && events[i].1@
                == path,
{
    lemma_removal(root, patterns, events, events.len() as int, path);
}

proof fn lemma_removal(
    root: Seq<char>,
    patterns: Ignore,
    events: Seq<(ChangeKind, String)>,
    n: int,
    path: Seq<char>,
)
    requires
        0 <= n <= events.len(),
    ensures
        changes_below(root, patterns, events, n).contains((Evt::Delete, path))
            <==> paths::components(root).is_prefix_of(paths::components(path)) && exists|i: int|
            0 <= i < n && (#[trigger] events[i]).0 == ChangeKind::Remove && events[i].1@ == path,
    decreases n,
{
    if n > 0 {
        lemma_removal(root, patterns, events, n - 1, path);
        let e = events[n - 1];
        let head = changes_below(root, patterns, events, n - 1);
        let all = changes_below(root, patterns, events, n);
        let c = (Evt::Delete, path);
        paths::lemma_within(path, root);
        if head.contains(c) {
            let k = choose|k: int| 0 <= k < head.len() && head[k] == c;
            assert(all[k] == c);
        }
        if all.contains(c) {
            let k = choose|k: int| 0 <= k < all.len() && all[k] == c;
            if k < head.len() {
                assert(head[k] == c);
            }
        }
        if e.0 == ChangeKind::Remove && e.1@ == path && paths::within(path, root) {
            assert(all.last() == c);
        }
    }
}

/// Whether the root refers to every id of its files.
pub open spec fn covered(map: Map<Seq<char>, Set<Seq<char>>>, all: Set<Seq<char>>) -> bool {
    forall|path: Seq<char>, id: Seq<char>| #[trigger] has_id(map, path, id) ==> all.contains(id)
}

proof fn lemma_queue_ids(queued: Seq<RecordView>, records: Seq<RecordView>, all: Set<Seq<char>>)
    ensures
        oneshot::ids_of(queue(queued, records, all)) == oneshot::ids_of(queued).union(
            oneshot::ids_of(records).difference(all),
        ),
    decreases records.len(),
{
    if records.len() == 0 {
        assert(oneshot::ids_of(queued) =~= oneshot::ids_of(queued).union(
            oneshot::ids_of(records).difference(all),
        ));
    } else {
        let t = records.drop_last();
        lemma_queue_ids(queued, t, all);
        let q = queue(queued, t, all);
        let r = records.last();
        if !(all.contains(r.id) || oneshot::ids_of(q).contains(r.id)) {
            assert(q.push(r).drop_last() =~= q);
        }
        assert(oneshot::ids_of(queue(queued, records, all)) =~= oneshot::ids_of(queued).union(
            oneshot::ids_of(records).difference(all),
        ));
    }
}

proof fn lemma_plan_covers(
    changes: Seq<ChangeView>,
    map: Map<Seq<char>, Set<Seq<char>>>,
    all: Set<Seq<char>>,
)
    requires
        covered(map, all),
    ensures
        oneshot::ids_of(plan_of(changes, map, all).records).subset_of(
            plan_of(changes, map, all).target,
        ),
        oneshot::ids_of(plan_of(changes, map, all).records).disjoint(all),
    decreases changes.len(),
{
    if changes.len() > 0 {
        let t = changes.drop_last();
        let c = changes.last();
        lemma_plan_covers(t, map, all);
        let p = plan_of(t, map, all);
        let q = plan_of(changes, map, all);
        match c.state {
            StateView::Gone => {
                assert forall|id: Seq<char>|
                    oneshot::ids_of(q.records).contains(id) implies q.target.contains(id) by {
                    if ids_beneath(map, c.rel).contains(id) {
                        let path = choose|path: Seq<char>| #[trigger]
                            has_id(map, path, id) && beneath(path, c.rel);
                        assert(all.contains(id));
                    }
                }
            },
            StateView::Binary => {},
            StateView::Text(records) => {
                lemma_queue_ids(p.records, records, all);
                assert forall|id: Seq<char>|
                    oneshot::ids_of(q.records).contains(id) implies q.target.contains(id) by {
                    if ids_at(map, c.rel).contains(id) {
                        assert(has_id(map, c.rel, id));
                        assert(all.contains(id));
                    }
                }
            },
        }
    }
}

/// The manifest covers the new content: every record that a plan adds has its id
/// among those that the root refers to, and none of them was there before. So a
/// manifest that is written before the records are added never leaves a record
/// without a reference to it.
pub proof fn law_manifest_covers_new_records(
    changes: Seq<ChangeView>,
    map: Map<Seq<char>, Set<Seq<char>>>,
    all: Set<Seq<char>>,
)
    requires
        covered(map, all),
    ensures
        forall|id: Seq<char>| #[trigger]
            oneshot::ids_of(plan_of(changes, map, all).records).contains(id) ==> plan_of(
                changes,
                map,
                all,
            ).target.contains(id) && !all.contains(id),
{
    lemma_plan_covers(changes, map, all);
}

/// The manifest is written before anything is added: the records of a plan are added
/// only after its manifest was written with success, and it then refers to each of
/// them. So a sweep at any moment finds no record that was added and is not referred to.
pub proof fn law_manifest_written_before_adds(
    changes: Seq<ChangeView>,
    map: Map<Seq<char>, Set<Seq<char>>>,
    all: Set<Seq<char>>,
    outcomes: Seq<bool>,
    i: int,
)
    requires
        covered(map, all),
        0 <= i <= outcomes.len(),
        live_steps(
            outcomes,
            is_idle(plan_of(changes, map, all)),
            plan_of(changes, map, all).records.len() > 0,
        )[i] == LiveStep::Add,
    ensures
        steps::succeeded_before(
            live_steps(
                outcomes,
                is_idle(plan_of(changes, map, all)),
                plan_of(changes, map, all).records.len() > 0,
            ),
            outcomes,
            i,
            LiveStep::WriteManifest,
        ),
        oneshot::ids_of(plan_of(changes, map, all).records).subset_of(
            plan_of(changes, map, all).target,
        ),
{
    let p = plan_of(changes, map, all);
    law_add_follows_write(outcomes, is_idle(p), p.records.len() > 0, i);
    lemma_plan_covers(changes, map, all);
}

/// Records are added only after the manifest was written with success.
pub proof fn law_add_follows_write(outcomes: Seq<bool>, idle: bool, new_records: bool, i: int)
    requires
        0 <= i <= outcomes.len(),
        live_steps(outcomes, idle, new_records)[i] == LiveStep::Add,
    ensures
        !idle,
        new_records,
        steps::succeeded_before(
            live_steps(outcomes, idle, new_records),
            outcomes,
            i,
            LiveStep::WriteManifest,
        ),
{
    lemma_live_steps(outcomes, idle, new_records, i);
    lemma_live_start(outcomes, idle, new_records);
    assert(outcomes[1] && live_steps(outcomes, idle, new_records)[1] == LiveStep::WriteManifest);
}

proof fn lemma_live_start(outcomes: Seq<bool>, idle: bool, new_records: bool)
    ensures
        outcomes.len() >= 1 && !idle ==> live_steps(outcomes, idle, new_records)[1]
            == LiveStep::WriteManifest,
        outcomes.len() >= 3 && !idle && new_records && outcomes[1] && outcomes[2] ==> live_steps(
            outcomes,
            idle,
            new_records,
        )[3] == LiveStep::Add,
{
    let all = live_steps(outcomes, idle, new_records);
    steps::lemma_trace(
        LiveStep::Begin,
        |step: LiveStep, ok: bool| live_step_after(step, ok, idle, new_records),
        outcomes,
    );
    if outcomes.len() >= 1 {
        assert(all[1] == live_step_after(all[0], outcomes[0], idle, new_records));
    }
    if outcomes.len() >= 3 {
        assert(all[2] == live_step_after(all[1], outcomes[1], idle, new_records));
        assert(all[3] == live_step_after(all[2], outcomes[2], idle, new_records));
    }
}

/// A batch writes the manifest at most once.
pub proof fn law_manifest_written_once(
    outcomes: Seq<bool>,
    idle: bool,
    new_records: bool,
    i: int,
    j: int,
)
    requires
        0 <= i <= outcomes.len(),
        0 <= j <= outcomes.len(),
        live_steps(outcomes, idle, new_records)[i] == LiveStep::WriteManifest,
        live_steps(outcomes, idle, new_records)[j] == LiveStep::WriteManifest,
    ensures
        i == j,
{
    lemma_live_steps(outcomes, idle, new_records, i);
    lemma_live_steps(outcomes, idle, new_records, j);
}

/// A batch ends with what happened: the manifest counts as written where that step
/// succeeded, and the records as stored where theirs did.
pub proof fn law_batch_ends_with_what_happened(
    outcomes: Seq<bool>,
    idle: bool,
    new_records: bool,
    i: int,
    written: bool,
    stored: bool,
)
    requires
        0 <= i <= outcomes.len(),
        live_steps(outcomes, idle, new_records)[i] == (LiveStep::End { written, stored }),
    ensures
        written == steps::succeeded_before(
            live_steps(outcomes, idle, new_records),
            outcomes,
            i,
            LiveStep::WriteManifest,
        ),
        stored == steps::succeeded_before(
            live_steps(outcomes, idle, new_records),
            outcomes,
            i,
            LiveStep::Add,
        ),
{
    let all = live_steps(outcomes, idle, new_records);
    lemma_live_steps(outcomes, idle, new_records, i);
    lemma_live_start(outcomes, idle, new_records);
    assert forall|j: int| 0 <= j < i && outcomes[j] && #[trigger] all[j]
        == LiveStep::WriteManifest implies written by {
        lemma_live_steps(outcomes, idle, new_records, j);
    }
    assert forall|j: int| 0 <= j < i && outcomes[j] && #[trigger] all[j]
        == LiveStep::Add implies stored by {
        lemma_live_steps(outcomes, idle, new_records, j);
    }
    if written {
        assert(all[1] == LiveStep::WriteManifest);
    }
    if stored {
        assert(all[3] == LiveStep::Add);
    }
}

/// Deletions add nothing.
pub proof fn law_deletions_add_nothing(
    changes: Seq<ChangeView>,
    map: Map<Seq<char>, Set<Seq<char>>>,
    all: Set<Seq<char>>,
)
    requires
        forall|i: int| 0 <= i < changes.len() ==> (#[trigger] changes[i]).state is Gone,
    ensures
        plan_of(changes, map, all).records == Seq::<RecordView>::empty(),
        plan_of(changes, map, all).paths == Map::<Seq<char>, Set<Seq<char>>>::empty(),
        plan_of(changes, map, all).target.subset_of(all),
    decreases changes.len(),
{
    if changes.len() > 0 {
        let t = changes.drop_last();
        assert forall|i: int| 0 <= i < t.len() implies (#[trigger] t[i]).state is Gone by {
            assert(t[i] == changes[i]);
        }
        law_deletions_add_nothing(t, map, all);
        assert(changes.last() == changes[changes.len() - 1]);
    }
}

/// The deletion of a path takes the file at it and every file below it out, with
/// their ids, and leaves all other files as they are.
pub proof fn law_deletion_prunes_subtree(
    rel: Seq<char>,
    map: Map<Seq<char>, Set<Seq<char>>>,
    all: Set<Seq<char>>,
)
    ensures
        ({
            let p = plan_of(seq![ChangeView { rel, state: StateView::Gone }], map, all);
            let after = planned_paths(map, p);
            &&& p.target == all.difference(ids_beneath(map, rel))
            &&& forall|path: Seq<char>| #[trigger]
                after.contains_key(path) <==> map.contains_key(path) && !beneath(path, rel)
            &&& forall|path: Seq<char>| #[trigger]
                after.contains_key(path) ==> after[path] == map[path]
        }),
{
    let changes = seq![ChangeView { rel, state: StateView::Gone }];
    assert(changes.drop_last() =~= Seq::<ChangeView>::empty());
    reveal_with_fuel(plan_of, 2);
    let p = plan_of(changes, map, all);
    assert(p.paths =~= Map::<Seq<char>, Set<Seq<char>>>::empty());
    assert(p.removed =~= paths_beneath(map, rel));
}

/// A file whose ids are those it had asks for nothing.
pub proof fn law_unchanged_file_is_idle(
    rel: Seq<char>,
    records: Seq<RecordView>,
    map: Map<Seq<char>, Set<Seq<char>>>,
    all: Set<Seq<char>>,
)
    requires
        all.finite(),
        covered(map, all),
        map.contains_key(rel),
        map[rel] == oneshot::ids_of(records),
    ensures
        is_idle(plan_of(seq![ChangeView { rel, state: StateView::Text(records) }], map, all)),
{
    let changes = seq![ChangeView { rel, state: StateView::Text(records) }];
    assert(changes.drop_last() =~= Seq::<ChangeView>::empty());
    reveal_with_fuel(plan_of, 2);
    let p = plan_of(changes, map, all);
    let seen = oneshot::ids_of(records);
    assert(all.difference(ids_at(map, rel).difference(seen)) =~= all);
    assert forall|id: Seq<char>| seen.contains(id) implies all.contains(id) by {
        assert(has_id(map, rel, id));
    }
    lemma_queue_none(records, all);
}

proof fn lemma_queue_none(records: Seq<RecordView>, all: Set<Seq<char>>)
    requires
        oneshot::ids_of(records).subset_of(all),
    ensures
        queue(Seq::empty(), records, all) == Seq::<RecordView>::empty(),
    decreases records.len(),
{
    if records.len() > 0 {
        assert(oneshot::ids_of(records).contains(records.last().id));
        assert(oneshot::ids_of(records.drop_last()).subset_of(oneshot::ids_of(records)));
        lemma_queue_none(records.drop_last(), all);
    }
}

/// Whether every id of a map belongs to the file that has it.
pub open spec fn owned(
    map: Map<Seq<char>, Set<Seq<char>>>,
    owner: spec_fn(Seq<char>) -> Seq<char>,
) -> bool {
    forall|path: Seq<char>, id: Seq<char>| #[trigger] has_id(map, path, id) ==> owner(id) == path
}

/// Whether a batch is in order: the ids of a file belong to it, and no file that is
/// updated lies at or below one that is gone.
pub open spec fn orderly(
    changes: Seq<ChangeView>,
    owner: spec_fn(Seq<char>) -> Seq<char>,
) -> bool {
    &&& forall|i: int, id: Seq<char>|
        0 <= i < changes.len() && changes[i].state is Text && #[trigger] oneshot::ids_of(
            changes[i].state->Text_0,
        ).contains(id) ==> owner(id) == changes[i].rel
    &&& forall|i: int, j: int|
        0 <= i < changes.len() && 0 <= j < changes.len() && (#[trigger] changes[i]).state is Gone
            && (#[trigger] changes[j]).state is Text ==> !beneath(changes[j].rel, changes[i].rel)
}

/// A batch leaves the root referring to every id of its files, when it did so
/// before: each id belongs to one file, and the batch is in order.
pub proof fn law_files_stay_covered(
    changes: Seq<ChangeView>,
    map: Map<Seq<char>, Set<Seq<char>>>,
    all: Set<Seq<char>>,
    owner: spec_fn(Seq<char>) -> Seq<char>,
)
    requires
        covered(map, all),
        owned(map, owner),
        orderly(changes, owner),
    ensures
        covered(
            planned_paths(map, plan_of(changes, map, all)),
            plan_of(changes, map, all).target,
        ),
        owned(planned_paths(map, plan_of(changes, map, all)), owner),
{
    lemma_stay_covered(changes, map, all, owner);
}

/// Whether one of the changes updates the file.
pub open spec fn updated(changes: Seq<ChangeView>, path: Seq<char>) -> bool {
    exists|i: int|
        0 <= i < changes.len() && (#[trigger] changes[i]).state is Text && changes[i].rel == path
}

proof fn lemma_stay_covered(
    changes: Seq<ChangeView>,
    map: Map<Seq<char>, Set<Seq<char>>>,
    all: Set<Seq<char>>,
    owner: spec_fn(Seq<char>) -> Seq<char>,
)
    requires
        covered(map, all),
        owned(map, owner),
        orderly(changes, owner),
    ensures
        ({
            let p = plan_of(changes, map, all);
            &&& covered(planned_paths(map, p), p.target)
            &&& owned(planned_paths(map, p), owner)
            &&& owned(p.paths, owner)
            &&& forall|path: Seq<char>| #[trigger]
                p.paths.contains_key(path) ==> updated(changes, path)
        }),
    decreases changes.len(),
{
    let p = plan_of(changes, map, all);
    let after = planned_paths(map, p);
    if changes.len() == 0 {
        assert(after =~= map);
    } else {
        let t = changes.drop_last();
        let c = changes.last();
        assert(c == changes[changes.len() - 1]);
        assert(orderly(t, owner)) by {
            assert forall|i: int, id: Seq<char>|
                0 <= i < t.len() && t[i].state is Text && #[trigger] oneshot::ids_of(
                    t[i].state->Text_0,
                ).contains(id) implies owner(id) == t[i].rel by {
                assert(t[i] == changes[i]);
                assert(oneshot::ids_of(changes[i].state->Text_0).contains(id));
            }
            assert forall|i: int, j: int|
                0 <= i < t.len() && 0 <= j < t.len() && (#[trigger] t[i]).state is Gone && (
                #[trigger] t[j]).state is Text implies !beneath(t[j].rel, t[i].rel) by {
                assert(t[i] == changes[i]);
                assert(t[j] == changes[j]);
            }
        }
        lemma_stay_covered(t, map, all, owner);
        let q = plan_of(t, map, all);
        let before = planned_paths(map, q);
        assert forall|path: Seq<char>| #[trigger] p.paths.contains_key(path) implies updated(
            changes,
            path,
        ) by {
            if q.paths.contains_key(path) {
                let i = choose|i: int|
                    0 <= i < t.len() && (#[trigger] t[i]).state is Text && t[i].rel == path;
                assert(changes[i] == t[i]);
            }
        }
        match c.state {
            StateView::Gone => {
                assert forall|path: Seq<char>, id: Seq<char>| #[trigger]
                    has_id(after, path, id) implies p.target.contains(id) && owner(id) == path by {
                    assert(has_id(before, path, id));
                    assert(!beneath(path, c.rel)) by {
                        if q.paths.contains_key(path) {
                            let i = choose|i: int|
                                0 <= i < t.len() && (#[trigger] t[i]).state is Text && t[i].rel
                                    == path;
                            assert(changes[i] == t[i]);
                        } else {
                            assert(!p.removed.contains(path));
                        }
                    }
                    if ids_beneath(map, c.rel).contains(id) {
                        let other = choose|other: Seq<char>| #[trigger]
                            has_id(map, other, id) && beneath(other, c.rel);
                        assert(owner(id) == other);
                    }
                }
            },
            StateView::Binary => {},
            StateView::Text(records) => {
                let seen = oneshot::ids_of(records);
                assert forall|path: Seq<char>, id: Seq<char>| #[trigger]
                    has_id(after, path, id) implies p.target.contains(id) && owner(id) == path by {
                    if path == c.rel {
                        assert(seen.contains(id));
                        assert(oneshot::ids_of(changes[changes.len() - 1].state->Text_0).contains(
                            id,
                        ));
                    } else {
                        assert(has_id(before, path, id));
                        if ids_at(map, c.rel).contains(id) {
                            assert(has_id(map, c.rel, id));
                        }
                    }
                }
                assert forall|path: Seq<char>, id: Seq<char>| #[trigger]
                    has_id(p.paths, path, id) implies owner(id) == path by {
                    if path == c.rel {
                        assert(oneshot::ids_of(changes[changes.len() - 1].state->Text_0).contains(
                            id,
                        ));
                    } else {
                        assert(has_id(q.paths, path, id));
                    }
                }
            },
        }
    }
}

/// Whether some file has the id.
pub open spec fn in_some_file(map: Map<Seq<char>, Set<Seq<char>>>, id: Seq<char>) -> bool {
    exists|path: Seq<char>| #[trigger] has_id(map, path, id)
}

/// Whether the root refers to the ids of its files and to no others.
pub open spec fn in_step(map: Map<Seq<char>, Set<Seq<char>>>, all: Set<Seq<char>>) -> bool {
    forall|id: Seq<char>| #[trigger] all.contains(id) <==> in_some_file(map, id)
}

/// Whether no two changes of a batch are for the same path.
pub open spec fn distinct_rels(changes: Seq<ChangeView>) -> bool {
    forall|i: int, j: int|
        0 <= i < j < changes.len() ==> (#[trigger] changes[i]).rel != (#[trigger] changes[j]).rel
}

/// Whether one of the changes takes the path out.
pub open spec fn pruned(changes: Seq<ChangeView>, path: Seq<char>) -> bool {
    exists|i: int|
        0 <= i < changes.len() && (#[trigger] changes[i]).state is Gone && beneath(
            path,
            changes[i].rel,
        )
}

/// What a file has after a batch: what is in it now where it was updated, nothing
/// where it was taken out, and what it had otherwise.
pub open spec fn file_after(
    changes: Seq<ChangeView>,
    map: Map<Seq<char>, Set<Seq<char>>>,
    path: Seq<char>,
    after: Map<Seq<char>, Set<Seq<char>>>,
) -> bool {
    &&& forall|i: int|
        0 <= i < changes.len() && (#[trigger] changes[i]).state is Text && changes[i].rel == path
            ==> after.contains_key(path) && after[path] == oneshot::ids_of(
            changes[i].state->Text_0,
        )
    &&& !updated(changes, path) && pruned(changes, path) ==> !after.contains_key(path)
    &&& !updated(changes, path) && !pruned(changes, path) ==> {
        &&& after.contains_key(path) == map.contains_key(path)
        &&& after.contains_key(path) ==> after[path] == map[path]
    }
}

proof fn lemma_file_after(
    changes: Seq<ChangeView>,
    map: Map<Seq<char>, Set<Seq<char>>>,
    all: Set<Seq<char>>,
    path: Seq<char>,
)
    requires
        distinct_rels(changes),
    ensures
        file_after(changes, map, path, planned_paths(map, plan_of(changes, map, all))),
        plan_of(changes, map, all).paths.contains_key(path) == updated(changes, path),
        map.contains_key(path) ==> plan_of(changes, map, all).removed.contains(path) == pruned(
            changes,
            path,
        ),
    decreases changes.len(),
{
    let p = plan_of(changes, map, all);
    if changes.len() > 0 {
        let t = changes.drop_last();
        let c = changes.last();
        let n = changes.len() - 1;
        assert(c == changes[n]);
        assert forall|i: int, j: int| 0 <= i < j < t.len() implies (#[trigger] t[i]).rel != (
        #[trigger] t[j]).rel by {
            assert(t[i] == changes[i] && t[j] == changes[j]);
        }
        lemma_file_after(t, map, all, path);
        let q = plan_of(t, map, all);
        if updated(t, path) {
            let i = choose|i: int|
                0 <= i < t.len() && (#[trigger] t[i]).state is Text && t[i].rel == path;
            assert(changes[i] == t[i]);
        }
        if updated(changes, path) {
            let i = choose|i: int|
                0 <= i < changes.len() && (#[trigger] changes[i]).state is Text && changes[i].rel
                    == path;
            if i < n {
                assert(t[i] == changes[i]);
            }
        }
        if pruned(t, path) {
            let i = choose|i: int|
                0 <= i < t.len() && (#[trigger] t[i]).state is Gone && beneath(path, t[i].rel);
            assert(changes[i] == t[i]);
        }
        if pruned(changes, path) {
            let i = choose|i: int|
                0 <= i < changes.len() && (#[trigger] changes[i]).state is Gone && beneath(
                    path,
                    changes[i].rel,
                );
            if i < n {
                assert(t[i] == changes[i]);
            }
        }
        assert forall|i: int|
            0 <= i < changes.len() && (#[trigger] changes[i]).state is Text && changes[i].rel
                == path implies planned_paths(map, p).contains_key(path) && planned_paths(
            map,
            p,
        )[path] == oneshot::ids_of(changes[i].state->Text_0) by {
            if i < n {
                assert(t[i] == changes[i]);
                assert(changes[i].rel != changes[n].rel);
            }
        }
    }
}

proof fn lemma_refers_to_files(
    changes: Seq<ChangeView>,
    map: Map<Seq<char>, Set<Seq<char>>>,
    all: Set<Seq<char>>,
    owner: spec_fn(Seq<char>) -> Seq<char>,
)
    requires
        in_step(map, all),
        orderly(changes, owner),
        distinct_rels(changes),
    ensures
        ({
            let p = plan_of(changes, map, all);
            forall|id: Seq<char>| #[trigger]
                p.target.contains(id) ==> in_some_file(planned_paths(map, p), id)
        }),
    decreases changes.len(),
{
    let p = plan_of(changes, map, all);
    let after = planned_paths(map, p);
    if changes.len() == 0 {
        assert(after =~= map);
    } else {
        let t = changes.drop_last();
        let c = changes.last();
        let n = changes.len() - 1;
        assert(c == changes[n]);
        assert forall|i: int, j: int| 0 <= i < j < t.len() implies (#[trigger] t[i]).rel != (
        #[trigger] t[j]).rel by {
            assert(t[i] == changes[i] && t[j] == changes[j]);
        }
        assert(orderly(t, owner)) by {
            assert forall|i: int, id: Seq<char>|
                0 <= i < t.len() && t[i].state is Text && #[trigger] oneshot::ids_of(
                    t[i].state->Text_0,
                ).contains(id) implies owner(id) == t[i].rel by {
                assert(t[i] == changes[i]);
                assert(oneshot::ids_of(changes[i].state->Text_0).contains(id));
            }
            assert forall|i: int, j: int|
                0 <= i < t.len() && 0 <= j < t.len() && (#[trigger] t[i]).state is Gone && (
                #[trigger] t[j]).state is Text implies !beneath(t[j].rel, t[i].rel) by {
                assert(t[i] == changes[i]);
                assert(t[j] == changes[j]);
            }
        }
        lemma_refers_to_files(t, map, all, owner);
        let q = plan_of(t, map, all);
        let before = planned_paths(map, q);
        assert forall|id: Seq<char>| #[trigger] p.target.contains(id) implies in_some_file(
            after,
            id,
        ) by {
            let fresh = c.state is Text && oneshot::ids_of(c.state->Text_0).contains(id);
            if fresh {
                assert(has_id(after, c.rel, id));
            } else {
                assert(q.target.contains(id));
                assert(in_some_file(before, id));
                let path = choose|path: Seq<char>| #[trigger] has_id(before, path, id);
                lemma_file_after(t, map, all, path);
                match c.state {
                    StateView::Gone => {
                        if !q.paths.contains_key(path) {
                            assert(has_id(map, path, id));
                            assert(!beneath(path, c.rel));
                        }
                        assert(has_id(after, path, id));
                    },
                    StateView::Binary => {},
                    StateView::Text(records) => {
                        if path == c.rel {
                            if updated(t, path) {
                                let i = choose|i: int|
                                    0 <= i < t.len() && (#[trigger] t[i]).state is Text && t[i].rel
                                        == path;
                                assert(changes[i] == t[i]);
                                assert(changes[i].rel != changes[n].rel);
                            }
                            assert(ids_at(map, c.rel).contains(id));
                        }
                        assert(has_id(after, path, id));
                    },
                }
            }
        }
    }
}

/// Live updates converge to what a scan finds. After a batch, each file has the ids
/// of what is in it now, and the root refers to the ids of its files and to no
/// others, when it did so before: each id belongs to one file, the batch is in order,
/// and it changes no path twice.
pub proof fn law_updates_converge(
    changes: Seq<ChangeView>,
    map: Map<Seq<char>, Set<Seq<char>>>,
    all: Set<Seq<char>>,
    owner: spec_fn(Seq<char>) -> Seq<char>,
)
    requires
        in_step(map, all),
        owned(map, owner),
        orderly(changes, owner),
        distinct_rels(changes),
    ensures
        in_step(
            planned_paths(map, plan_of(changes, map, all)),
            plan_of(changes, map, all).target,
        ),
        forall|path: Seq<char>|
            #![trigger planned_paths(map, plan_of(changes, map, all)).contains_key(path)]
            file_after(changes, map, path, planned_paths(map, plan_of(changes, map, all))),
{
    assert(covered(map, all)) by {
        assert forall|path: Seq<char>, id: Seq<char>| #[trigger] has_id(map, path, id) implies
            all.contains(id) by {
            assert(in_some_file(map, id));
        }
    }
    lemma_stay_covered(changes, map, all, owner);
    lemma_refers_to_files(changes, map, all, owner);
    let after = planned_paths(map, plan_of(changes, map, all));
    assert forall|path: Seq<char>| #![trigger after.contains_key(path)]
        file_after(changes, map, path, after) by {
        lemma_file_after(changes, map, all, path);
    }
}

/// A batch asks for one action for each file in the root with a deletion or an update. It
/// is a deletion exactly where one of the changes of the file is, and names the path as
/// the last change of the file does.
#[verifier::rlimit(40)]
#[verifier::spinoff_prover]
pub proof fn law_deletion_wins(root: &str, changes: &Vec<(Evt, String)>, r: Vec<Action>, k: int)
    requires
        call_ensures(coalesce, (root, changes), r),
        0 <= k < r@.len(),
    ensures
        forall|j: int| 0 <= j < r@.len() && j != k ==> (#[trigger] r@[j]).rel@ != r@[k].rel@,
        r@[k].delete <==> exists|i: int|
            0 <= i < changes@.len() && (#[trigger] changes@[i]).0 == Evt::Delete && paths::relative(
                changes@[i].1@,
                root@,
            ) == Some(r@[k].rel@),
        exists|i: int|
            {
                &&& 0 <= i < changes@.len()
                &&& (#[trigger] changes@[i]).1@ == r@[k].path@
                &&& paths::relative(changes@[i].1@, root@) == Some(r@[k].rel@)
                &&& forall|j: int|
                    i < j < changes@.len() ==> paths::relative((#[trigger] changes@[j]).1@, root@)
                        != Some(r@[k].rel@)
            },
{
    let n = changes@.len() as int;
    let rel = r@[k].rel@;
    let rels = action_rels(r@);
    assert(rels[k] == rel);
    assert forall|j: int| 0 <= j < r@.len() && j != k implies (#[trigger] r@[j]).rel@ != rel by {
        assert(rels[j] == r@[j].rel@);
    }
    assert(r@[k].delete == deletes(root@, changes@, n, rel));
    if deletes(root@, changes@, n, rel) {
        let i = choose|i: int|
            0 <= i < n && #[trigger] change_rel(root@, changes@, i) == Some(rel) && changes@[i].0
                == Evt::Delete;
        assert(changes@[i].0 == Evt::Delete);
    }
    if exists|i: int|
        0 <= i < n && (#[trigger] changes@[i]).0 == Evt::Delete && paths::relative(
            changes@[i].1@,
            root@,
        ) == Some(rel) {
        let i = choose|i: int|
            0 <= i < n && (#[trigger] changes@[i]).0 == Evt::Delete && paths::relative(
                changes@[i].1@,
                root@,
            ) == Some(rel);
        assert(change_rel(root@, changes@, i) == Some(rel));
    }
    let i = lemma_last_path(root@, changes@, n, rel);
    assert forall|j: int| i < j < n implies paths::relative((#[trigger] changes@[j]).1@, root@)
        != Some(rel) by {
        assert(change_rel(root@, changes@, j) != Some(rel));
    }
    assert(changes@[i].1@ == r@[k].path@);
}

proof fn lemma_last_path(
    root: Seq<char>,
    changes: Seq<(Evt, String)>,
    n: int,
    rel: Seq<char>,
) -> (i: int)
    requires
        0 <= n <= changes.len(),
        last_path(root, changes, n, rel) is Some,
    ensures
        0 <= i < n,
        last_path(root, changes, n, rel) == Some(changes[i].1@),
        change_rel(root, changes, i) == Some(rel),
        forall|j: int| i < j < n ==> #[trigger] change_rel(root, changes, j) != Some(rel),
    decreases n,
{
    if change_rel(root, changes, n - 1) == Some(rel) {
        n - 1
    } else {
        lemma_last_path(root, changes, n - 1, rel)
    }
}

/// No deletion and no update of a file in the root is lost when changes are taken
/// together, and no file is acted on that none of them is about.
#[verifier::rlimit(40)]
#[verifier::spinoff_prover]
pub proof fn law_no_change_is_lost(
    root: &str,
    changes: &Vec<(Evt, String)>,
    r: Vec<Action>,
    rel: Seq<char>,
)
    requires
        call_ensures(coalesce, (root, changes), r),
    ensures
        (exists|k: int| 0 <= k < r@.len() && (#[trigger] r@[k]).rel@ == rel) <==> exists|i: int|
            0 <= i < changes@.len() && ((#[trigger] changes@[i]).0 == Evt::Delete || changes@[i].0
                == Evt::Upsert) && paths::relative(changes@[i].1@, root@) == Some(rel),
{
    let n = changes@.len() as int;
    let rels = action_rels(r@);
    assert(rels.contains(rel) <==> acts(root@, changes@, n, rel));
    if exists|k: int| 0 <= k < r@.len() && (#[trigger] r@[k]).rel@ == rel {
        let k = choose|k: int| 0 <= k < r@.len() && (#[trigger] r@[k]).rel@ == rel;
        assert(rels[k] == rel);
        let i = choose|i: int|
            0 <= i < n && #[trigger] change_rel(root@, changes@, i) == Some(rel) && changes@[i].0
                != Evt::Resync;
        assert(changes@[i].0 == Evt::Delete || changes@[i].0 == Evt::Upsert);
    }
    if exists|i: int|
        0 <= i < n && ((#[trigger] changes@[i]).0 == Evt::Delete || changes@[i].0 == Evt::Upsert)
            && paths::relative(changes@[i].1@, root@) == Some(rel) {
        let i = choose|i: int|
            0 <= i < n && ((#[trigger] changes@[i]).0 == Evt::Delete || changes@[i].0
                == Evt::Upsert) && paths::relative(changes@[i].1@, root@) == Some(rel);
        assert(change_rel(root@, changes@, i) == Some(rel));
        let k = choose|k: int| 0 <= k < rels.len() && rels[k] == rel;
        assert(r@[k].rel@ == rel);
    }
}

/// What is removed with a path is the file at it and all that lies below it as a
/// directory, but no file whose name only starts alike.
pub proof fn law_files_beneath_a_path(rel: Seq<char>, x: Seq<char>, path: Seq<char>)
    ensures
        beneath(rel, rel),
        beneath(rel + seq!['/'] + x, rel),
        x.len() > 0 && x[0] != '/' ==> !beneath(rel + x, rel),
        !rel.is_prefix_of(path) ==> !beneath(path, rel),
{
    let d = rel + seq!['/'];
    let s = d + x;
    assert(s.take(d.len() as int) =~= d);
    if x.len() > 0 && x[0] != '/' {
        let t = rel + x;
        if t == rel {
            assert(t.len() == rel.len());
        }
        if text::has_prefix(t, d) {
            assert(t.take(d.len() as int)[rel.len() as int] == t[rel.len() as int]);
        }
    }
    if beneath(path, rel) && path != rel {
        assert(path.take(rel.len() as int) =~= rel) by {
            assert forall|i: int| 0 <= i < rel.len() implies path[i] == rel[i] by {
                assert(path.take(d.len() as int)[i] == d[i]);
            }
        }
    } else if path == rel {
        assert(path.take(rel.len() as int) =~= rel);
    }
}

/// Whether one of the changes brings the record.
pub open spec fn brings(changes: Seq<ChangeView>, r: RecordView) -> bool {
    exists|i: int|
        0 <= i < changes.len() && match (#[trigger] changes[i]).state {
            StateView::Text(records) => records.contains(r),
            _ => false,
        }
}

/// A plan adds a record for each id that the changes bring and the root did not refer to
/// before: none is left out, none comes twice, and each is one of those brought.
#[verifier::rlimit(40)]
#[verifier::spinoff_prover]
pub proof fn law_plan_adds_new_records_once(
    changes: Seq<ChangeView>,
    map: Map<Seq<char>, Set<Seq<char>>>,
    all: Set<Seq<char>>,
)
    ensures
        ({
            let added = plan_of(changes, map, all).records;
            &&& forall|r: RecordView| #[trigger]
                brings(changes, r) && !all.contains(r.id) ==> exists|k: int|
                    0 <= k < added.len() && (#[trigger] added[k]).id == r.id
            &&& forall|k: int|
                0 <= k < added.len() ==> brings(changes, #[trigger] added[k]) && !all.contains(
                    added[k].id,
                )
            &&& forall|j: int, k: int|
                0 <= j < k < added.len() ==> (#[trigger] added[j]).id != (#[trigger] added[k]).id
        }),
    decreases changes.len(),
{
    if changes.len() > 0 {
        let t = changes.drop_last();
        law_plan_adds_new_records_once(t, map, all);
        let before = plan_of(t, map, all).records;
        let added = plan_of(changes, map, all).records;
        match changes.last().state {
            StateView::Text(records) => {
                assert(added == queue(before, records, all));
                lemma_queue(before, records, all);
                assert forall|k: int| 0 <= k < added.len() implies brings(
                    changes,
                    #[trigger] added[k],
                ) && !all.contains(added[k].id) by {
                    lemma_brings(changes, added[k]);
                    if k < before.len() {
                        assert(added[k] == before[k]);
                    }
                }
                assert forall|r: RecordView| #[trigger]
                    brings(changes, r) && !all.contains(r.id) implies exists|k: int|
                    0 <= k < added.len() && (#[trigger] added[k]).id == r.id by {
                    lemma_brings(changes, r);
                    if brings(t, r) {
                        let k = choose|k: int|
                            0 <= k < before.len() && (#[trigger] before[k]).id == r.id;
                        assert(added[k] == before[k]);
                    }
                }
            },
            _ => {
                assert(added == before);
                assert forall|k: int| 0 <= k < added.len() implies brings(
                    changes,
                    #[trigger] added[k],
                ) by {
                    lemma_brings(changes, added[k]);
                }
                assert forall|r: RecordView| #[trigger]
                    brings(changes, r) && !all.contains(r.id) implies exists|k: int|
                    0 <= k < added.len() && (#[trigger] added[k]).id == r.id by {
                    lemma_brings(changes, r);
                }
            },
        }
    }
}

proof fn lemma_brings(changes: Seq<ChangeView>, r: RecordView)
    requires
        changes.len() > 0,
    ensures
        brings(changes, r) <==> brings(changes.drop_last(), r) || match changes.last().state {
            StateView::Text(records) => records.contains(r),
            _ => false,
        },
{
    let t = changes.drop_last();
    if brings(changes, r) {
        let i = choose|i: int|
            0 <= i < changes.len() && match (#[trigger] changes[i]).state {
                StateView::Text(records) => records.contains(r),
                _ => false,
            };
        if i < t.len() {
            assert(t[i] == changes[i]);
        }
    }
    if brings(t, r) {
        let i = choose|i: int|
            0 <= i < t.len() && match (#[trigger] t[i]).state {
                StateView::Text(records) => records.contains(r),
                _ => false,
            };
        assert(changes[i] == t[i]);
    }
    assert(changes[changes.len() - 1] == changes.last());
}

#[verifier::rlimit(40)]
#[verifier::spinoff_prover]
proof fn lemma_queue(queued: Seq<RecordView>, records: Seq<RecordView>, all: Set<Seq<char>>)
    requires
        forall|j: int, k: int|
            0 <= j < k < queued.len() ==> (#[trigger] queued[j]).id != (#[trigger] queued[k]).id,
    ensures
        ({
            let q = queue(queued, records, all);
            &&& q.len() >= queued.len()
            &&& forall|k: int| 0 <= k < queued.len() ==> #[trigger] q[k] == queued[k]
            &&& forall|k: int|
                queued.len() <= k < q.len() ==> records.contains(#[trigger] q[k]) && !all.contains(
                    q[k].id,
                )
            &&& forall|j: int, k: int|
                0 <= j < k < q.len() ==> (#[trigger] q[j]).id != (#[trigger] q[k]).id
            &&& forall|r: RecordView| #[trigger]
                records.contains(r) && !all.contains(r.id) ==> exists|k: int|
                    0 <= k < q.len() && (#[trigger] q[k]).id == r.id
        }),
    decreases records.len(),
{
    if records.len() > 0 {
        let t = records.drop_last();
        lemma_queue(queued, t, all);
        let before = queue(queued, t, all);
        let q = queue(queued, records, all);
        let last = records.last();
        oneshot::law_new_records(before, all, last.id);
        assert forall|k: int| queued.len() <= k < q.len() implies records.contains(
            #[trigger] q[k],
        ) && !all.contains(q[k].id) by {
            if k < before.len() {
                assert(q[k] == before[k]);
                let i = choose|i: int| 0 <= i < t.len() && t[i] == before[k];
                assert(records[i] == before[k]);
            } else {
                assert(records[records.len() - 1] == q[k]);
            }
        }
        assert forall|r: RecordView| #[trigger] records.contains(r) && !all.contains(
            r.id,
        ) implies exists|k: int| 0 <= k < q.len() && (#[trigger] q[k]).id == r.id by {
            let i = choose|i: int| 0 <= i < records.len() && records[i] == r;
            if i < t.len() {
                assert(t[i] == r);
                assert(t.contains(r));
                let k = choose|k: int| 0 <= k < before.len() && (#[trigger] before[k]).id == r.id;
                assert(q[k] == before[k]);
            } else if oneshot::ids_of(before).contains(r.id) {
                let k = choose|k: int| 0 <= k < before.len() && (#[trigger] before[k]).id == r.id;
                assert(q[k] == before[k]);
            } else {
                assert(q[before.len() as int].id == r.id);
            }
        }
    }
}

/// An updated file, after whatever else is in the batch: the root refers from then on to
/// the ids of its records, and no longer to those that it had and has no more, which are
/// counted.
#[verifier::rlimit(40)]
#[verifier::spinoff_prover]
pub proof fn law_update_in_a_batch(
    changes: Seq<ChangeView>,
    rel: Seq<char>,
    records: Seq<RecordView>,
    map: Map<Seq<char>, Set<Seq<char>>>,
    all: Set<Seq<char>>,
    id: Seq<char>,
)
    requires
        plan_of(changes, map, all).target.finite(),
    ensures
        ({
            let before = plan_of(changes, map, all);
            let p = plan_of(
                changes.push(ChangeView { rel, state: StateView::Text(records) }),
                map,
                all,
            );
            let new = Set::new(
                |k: Seq<char>| exists|i: int| 0 <= i < records.len() && (#[trigger] records[i]).id == k,
            );
            let lost = before.target.filter(|k: Seq<char>| has_id(map, rel, k) && !new.contains(k));
            &&& p.target.contains(id) <==> new.contains(id) || before.target.contains(id) && !has_id(
                map,
                rel,
                id,
            )
            &&& p.deleted == before.deleted + lost.len()
            &&& p.removed == before.removed
            &&& p.paths == before.paths.insert(rel, new)
        }),
{
    let c = ChangeView { rel, state: StateView::Text(records) };
    assert(changes.push(c).drop_last() =~= changes);
    let before = plan_of(changes, map, all);
    let new = Set::new(
        |k: Seq<char>| exists|i: int| 0 <= i < records.len() && (#[trigger] records[i]).id == k,
    );
    let seen = oneshot::ids_of(records);
    assert forall|k: Seq<char>| seen.contains(k) == new.contains(k) by {
        oneshot::law_new_records(records, all, k);
    }
    assert(seen =~= new);
    let kept = before.target.difference(ids_at(map, rel).difference(seen));
    let lost = before.target.filter(|k: Seq<char>| has_id(map, rel, k) && !new.contains(k));
    vstd::set_lib::lemma_set_disjoint_lens(kept, lost);
    assert(kept + lost =~= before.target);
}

/// A removed path, after whatever else is in the batch: the root no longer refers to the
/// ids that the files at and below it had, which are counted.
#[verifier::rlimit(40)]
#[verifier::spinoff_prover]
pub proof fn law_removal_in_a_batch(
    changes: Seq<ChangeView>,
    rel: Seq<char>,
    map: Map<Seq<char>, Set<Seq<char>>>,
    all: Set<Seq<char>>,
    id: Seq<char>,
    path: Seq<char>,
)
    requires
        plan_of(changes, map, all).target.finite(),
    ensures
        ({
            let before = plan_of(changes, map, all);
            let p = plan_of(changes.push(ChangeView { rel, state: StateView::Gone }), map, all);
            let lost = before.target.filter(
                |k: Seq<char>|
                    exists|q: Seq<char>| #[trigger]
                        has_id(map, q, k) && (q == rel || (rel + seq!['/']).is_prefix_of(q)),
            );
            &&& p.target.contains(id) <==> before.target.contains(id) && !lost.contains(id)
            &&& p.deleted == before.deleted + lost.len()
            &&& p.removed.contains(path) <==> before.removed.contains(path) || map.contains_key(path)
                && (path == rel || (rel + seq!['/']).is_prefix_of(path))
            &&& p.records == before.records
            &&& p.paths == before.paths
        }),
{
    let c = ChangeView { rel, state: StateView::Gone };
    assert(changes.push(c).drop_last() =~= changes);
    let before = plan_of(changes, map, all);
    let d = rel + seq!['/'];
    assert forall|q: Seq<char>| #[trigger] beneath(q, rel) == (q == rel || d.is_prefix_of(q)) by {
        if d.len() <= q.len() {
            assert(q.take(d.len() as int) =~= q.subrange(0, d.len() as int));
        }
    }
    let lost = before.target.filter(
        |k: Seq<char>|
            exists|q: Seq<char>| #[trigger]
                has_id(map, q, k) && (q == rel || (rel + seq!['/']).is_prefix_of(q)),
    );
    let kept = before.target.difference(ids_beneath(map, rel));
    assert forall|k: Seq<char>| before.target.contains(k) implies lost.contains(k) == ids_beneath(
        map,
        rel,
    ).contains(k) by {
        if lost.contains(k) {
            let q = choose|q: Seq<char>| #[trigger]
                has_id(map, q, k) && (q == rel || (rel + seq!['/']).is_prefix_of(q));
            assert(has_id(map, q, k) && beneath(q, rel));
        }
        if ids_beneath(map, rel).contains(k) {
            let q = choose|q: Seq<char>| #[trigger] has_id(map, q, k) && beneath(q, rel);
            assert(has_id(map, q, k));
        }
    }
    vstd::set_lib::lemma_set_disjoint_lens(kept, lost);
    assert(kept + lost =~= before.target);
    assert(kept.disjoint(lost));
    assert(beneath(path, rel) == (path == rel || d.is_prefix_of(path)));
}

/// A batch without changes leaves everything as it is, and what a root refers to stays
/// finite.
pub proof fn law_empty_batch(
    changes: Seq<ChangeView>,
    map: Map<Seq<char>, Set<Seq<char>>>,
    all: Set<Seq<char>>,
)
    ensures
        ({
            let p = plan_of(Seq::empty(), map, all);
            &&& p.target == all
            &&& p.removed == Set::<Seq<char>>::empty()
            &&& p.paths == Map::<Seq<char>, Set<Seq<char>>>::empty()
            &&& p.records.len() == 0
            &&& p.deleted == 0
        }),
        all.finite() ==> plan_of(changes, map, all).target.finite(),
    decreases changes.len(),
{
    if changes.len() > 0 {
        law_empty_batch(changes.drop_last(), map, all);
        match changes.last().state {
            StateView::Text(records) => {
                lemma_ids_finite(records);
            },
            _ => {},
        }
    }
}

proof fn lemma_ids_finite(records: Seq<RecordView>)
    ensures
        oneshot::ids_of(records).finite(),
    decreases records.len(),
{
    if records.len() > 0 {
        lemma_ids_finite(records.drop_last());
    }
}

/// A file that is no text asks for nothing.
pub proof fn law_binary_file_changes_nothing(
    changes: Seq<ChangeView>,
    rel: Seq<char>,
    map: Map<Seq<char>, Set<Seq<char>>>,
    all: Set<Seq<char>>,
)
    ensures
        plan_of(changes.push(ChangeView { rel, state: StateView::Binary }), map, all) == plan_of(
            changes,
            map,
            all,
        ),
{
    assert(changes.push(ChangeView { rel, state: StateView::Binary }).drop_last() =~= changes);
}

/// A plan with a record to add, an id that is no longer referred to, or a known file that
/// is gone is carried out; any other is left.
pub proof fn law_plans_that_are_carried_out(plan: &Plan, r: bool)
    requires
        call_ensures(Plan::is_noop, (plan,), r),
    ensures
        plan@.records.len() > 0 ==> !r,
        plan@.deleted > 0 ==> !r,
        (exists|path: Seq<char>| plan@.removed.contains(path)) ==> !r,
        r == is_idle(plan@),
        plan@.records.len() == 0 && plan@.deleted == 0 && (forall|path: Seq<char>|
            !plan@.removed.contains(path)) ==> r,
{
    if forall|path: Seq<char>| !plan@.removed.contains(path) {
        assert(plan@.removed =~= Set::<Seq<char>>::empty());
    }
}

/// A deleted file, and one that is not there, is gone; else what was read of it decides.
pub proof fn law_state_of_a_file(
    delete: bool,
    present: bool,
    ok: bool,
    records: Vec<Record>,
    state: FileState,
    gone: bool,
)
    requires
        call_ensures(state_of, (delete, present, ok, records), state),
        call_ensures(is_gone, (delete, present), gone),
    ensures
        gone <==> state is Gone,
        delete ==> state is Gone,
        !present ==> state is Gone,
        !delete && present && ok ==> state == FileState::Text(records),
        !delete && present && !ok ==> state is Binary,
{
}

/// After a wait events are applied, a signal and the end of the watcher end the indexer
/// with success, an error of the watcher ends it with 4, and after 45 minutes without a
/// scan a quiet root is scanned again.
pub proof fn law_live_indexer_after_a_wait(waited: Waited, since_scan: u64, r: Next)
    requires
        call_ensures(next_step, (waited, since_scan), r),
    ensures
        r == Next::Apply <==> waited == Waited::Events,
        r == Next::Exit(0) <==> waited == Waited::Stopped || waited == Waited::Disconnected,
        r == Next::Exit(4) <==> waited == Waited::Errors,
        r == Next::Resync <==> waited == Waited::Timeout && since_scan >= 45 * 60,
        r == Next::Wait <==> waited == Waited::Timeout && since_scan < 45 * 60,
{
}

/// A removal deletes, a creation and a change update, and nothing else counts.
pub proof fn law_events(kind: ChangeKind, r: Option<Evt>)
    requires
        call_ensures(evt_for, (&kind,), r),
    ensures
        r == Some(Evt::Delete) <==> kind == ChangeKind::Remove,
        r == Some(Evt::Upsert) <==> kind == ChangeKind::Create || kind == ChangeKind::Modify,
        r is None <==> kind != ChangeKind::Remove && kind != ChangeKind::Create && kind
            != ChangeKind::Modify,
{
}

/// The ids of a file are those stored for its path that the root refers to.
pub proof fn law_ids_of_each_file(
    pairs: &Vec<(String, Meta)>,
    mine: &IdSet,
    r: PathIds,
    path: Seq<char>,
    id: Seq<char>,
)
    requires
        call_ensures(build_path_to_ids, (pairs, mine), r),
    ensures
        r@.contains_key(path) && r@[path].contains(id) <==> path.len() > 0 && mine@.contains(id)
            && exists|i: int|
            0 <= i < pairs@.len() && (#[trigger] pairs@[i]).0@ == id && pairs@[i].1.path@ == path,
{
    assert(has_id(r@, path, id) <==> gives(pairs@, mine@, pairs@.len() as int, path, id));
}

/// A batch whose requests all succeed writes the manifest, and where there are records
/// embeds and adds them; then it ends with all of that done. A plan with nothing to do
/// makes no request.
pub proof fn law_batch_is_carried_out(new_records: bool)
    ensures
        ({
            let begun = live_step_after(LiveStep::Begin, true, false, new_records);
            let written = live_step_after(begun, true, false, new_records);
            let embedded = live_step_after(written, true, false, new_records);
            let added = live_step_after(embedded, true, false, new_records);
            &&& begun == LiveStep::WriteManifest
            &&& new_records ==> written == LiveStep::Embed && embedded == LiveStep::Add
            &&& added == (LiveStep::End { written: true, stored: new_records })
            &&& !new_records ==> written == added
            &&& live_step_after(LiveStep::Begin, true, true, new_records) == (LiveStep::End {
                written: false,
                stored: false,
            })
        }),
{
}

/// Once a plan is carried out a file has the ids that the plan gives it; one that the
/// plan takes out and does not give any has none, and any other has those it had.
pub proof fn law_files_of_a_plan(
    map: Map<Seq<char>, Set<Seq<char>>>,
    p: PlanView,
    path: Seq<char>,
)
    ensures
        ({
            let after = planned_paths(map, p);
            &&& p.paths.contains_key(path) ==> after.contains_key(path) && after[path]
                == p.paths[path]
            &&& !p.paths.contains_key(path) && p.removed.contains(path) ==> !after.contains_key(path)
            &&& !p.paths.contains_key(path) && !p.removed.contains(path) ==> (after.contains_key(path)
                == map.contains_key(path)) && (map.contains_key(path) ==> after[path] == map[path])
        }),
{
}

/// A deletion is applied exactly where the path lies in the root, an update where
/// moreover the file is of an indexed kind and not ignored, and a new scan always.
pub proof fn law_changes_that_are_applied(
    root: &str,
    patterns: &Ignore,
    path: &str,
    evt: &Evt,
    r: bool,
)
    requires
        call_ensures(keep_event, (root, patterns, path, evt), r),
    ensures
        *evt == Evt::Delete ==> (r <==> paths::components(root@).is_prefix_of(
            paths::components(path@),
        )),
        *evt == Evt::Upsert ==> (r <==> paths::components(root@).is_prefix_of(
            paths::components(path@),
        ) && walk::indexable(path@) && !walk::ignores(
            patterns.root(),
            patterns.lines(),
            paths::relative(path@, root@).unwrap(),
            false,
        )),
        *evt == Evt::Resync ==> r,
{
    paths::lemma_within(path@, root@);
}

} // verus!
