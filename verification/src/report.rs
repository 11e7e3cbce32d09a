//! A run on one directory: its steps, and what the program says about it.
use vstd::prelude::*;

use crate::store::Stats;
use crate::{steps, text};

verus! {

/// The exit code where a request or the model failed.
pub const EXIT_FAILURE: u8 = 1;

/// The exit code where the path to index is no directory.
pub const EXIT_NOT_A_DIRECTORY: u8 = 2;

/// The exit code where the database cannot be reached.
pub const EXIT_UNREACHABLE: u8 = 3;

/// The exit code where watching for changes failed.
pub const EXIT_WATCH_FAILED: u8 = 4;

/// A step of a run on one directory.
#[derive(Debug, Clone, Copy, PartialEq, Eq, Structural)]
pub enum Step {
    /// See whether the path is a directory.
    CheckDirectory,
    /// See whether the database can be reached.
    Heartbeat,
    /// Delete the collection.
    DeleteCollection,
    /// Open the collection, or make it.
    OpenCollection,
    /// Index what changes until told to stop; the exit code is the live indexer's.
    RunDaemon,
    /// Scan the directory.
    Scan,
    /// Count what is stored, and report.
    Report,
    /// End with the exit code.
    Exit(u8),
}

/// What follows a step, where `code` is the exit code that the live indexer ended with.
/// The path must be a directory and the database must be there; a collection that
/// cannot be deleted is left; any other failure ends the run. The embedding model is
/// not loaded before it is needed.
pub open spec fn step_after(
    step: Step,
    ok: bool,
    code: u8,
    daemon: bool,
    full_rebuild: bool,
) -> Step {
    match step {
        Step::CheckDirectory => if ok {
            Step::Heartbeat
        } else {
            Step::Exit(EXIT_NOT_A_DIRECTORY)
        },
        Step::Heartbeat => if !ok {
            Step::Exit(EXIT_UNREACHABLE)
        } else if full_rebuild {
            Step::DeleteCollection
        } else {
            Step::OpenCollection
        },
        Step::DeleteCollection => Step::OpenCollection,
        Step::OpenCollection => if !ok {
            Step::Exit(EXIT_FAILURE)
        } else if daemon {
            Step::RunDaemon
        } else {
            Step::Scan
        },
        Step::Scan => if ok {
            Step::Report
        } else {
            Step::Exit(EXIT_FAILURE)
        },
        Step::RunDaemon => Step::Exit(
            if ok {
                code
            } else {
                EXIT_FAILURE
            },
        ),
        Step::Report => Step::Exit(
            if ok {
                0
            } else {
                EXIT_FAILURE
            },
        ),
        Step::Exit(code) => Step::Exit(code),
    }
}

/// What follows a step that succeeded or failed.
pub fn next_step(step: Step, ok: bool, code: u8, daemon: bool, full_rebuild: bool) -> (r: Step)
    ensures
        r == step_after(step, ok, code, daemon, full_rebuild),
{
    match step {
        Step::CheckDirectory => {
            if ok {
                Step::Heartbeat
            } else {
                Step::Exit(EXIT_NOT_A_DIRECTORY)
            }
        },
        Step::Heartbeat => {
            if !ok {
                Step::Exit(EXIT_UNREACHABLE)
            } else if full_rebuild {
                Step::DeleteCollection
            } else {
                Step::OpenCollection
            }
        },
        Step::DeleteCollection => Step::OpenCollection,
        Step::OpenCollection => {
            if !ok {
                Step::Exit(EXIT_FAILURE)
            } else if daemon {
                Step::RunDaemon
            } else {
                Step::Scan
            }
        },
        Step::Scan => {
            if ok {
                Step::Report
            } else {
                Step::Exit(EXIT_FAILURE)
            }
        },
        Step::RunDaemon => {
            if ok {
                Step::Exit(code)
            } else {
                Step::Exit(EXIT_FAILURE)
            }
        },
        Step::Report => {
            if ok {
                Step::Exit(0)
            } else {
                Step::Exit(EXIT_FAILURE)
            }
        },
        Step::Exit(code) => Step::Exit(code),
    }
}

/// The steps of a run, given which of them succeed, from its beginning on.
pub open spec fn run_steps(
    outcomes: Seq<bool>,
    code: u8,
    daemon: bool,
    full_rebuild: bool,
) -> Seq<Step> {
    steps::trace(
        Step::CheckDirectory,
        |step: Step, ok: bool| step_after(step, ok, code, daemon, full_rebuild),
        outcomes,
    )
}

/// A run deletes the collection only where everything is to be rebuilt, and only once
/// the path has turned out to be a directory and the database to be there.
pub proof fn law_deletion_only_on_rebuild(
    outcomes: Seq<bool>,
    code: u8,
    daemon: bool,
    full_rebuild: bool,
    i: int,
)
    requires
        0 <= i <= outcomes.len(),
        run_steps(outcomes, code, daemon, full_rebuild)[i] == Step::DeleteCollection,
    ensures
        full_rebuild,
        steps::succeeded_before(
            run_steps(outcomes, code, daemon, full_rebuild),
            outcomes,
            i,
            Step::CheckDirectory,
        ),
        steps::succeeded_before(
            run_steps(outcomes, code, daemon, full_rebuild),
            outcomes,
            i,
            Step::Heartbeat,
        ),
{
    let all = run_steps(outcomes, code, daemon, full_rebuild);
    steps::lemma_trace(
        Step::CheckDirectory,
        |step: Step, ok: bool| step_after(step, ok, code, daemon, full_rebuild),
        outcomes,
    );
    assert(i > 0);
    assert(all[i] == step_after(all[i - 1], outcomes[i - 1], code, daemon, full_rebuild));
    assert(all[i - 1] == Step::Heartbeat && outcomes[i - 1]);
    assert(all[i - 1] == step_after(all[i - 2], outcomes[i - 2], code, daemon, full_rebuild));
    assert(all[i - 2] == Step::CheckDirectory && outcomes[i - 2]);
}

/// The exit code that goes with the step before the end and with whether it succeeded.
pub open spec fn exit_code(last: Step, ok: bool, code: u8) -> u8 {
    match last {
        Step::CheckDirectory => EXIT_NOT_A_DIRECTORY,
        Step::Heartbeat => EXIT_UNREACHABLE,
        _ => if !ok {
            EXIT_FAILURE
        } else if last == Step::RunDaemon {
            code
        } else {
            0
        },
    }
}

/// A run ends with a failure, or after its report, or after the live indexer; and then
/// with the code of the failure, with 0, or with the live indexer's own code. Only a run
/// as a live indexer comes to that one, and it neither scans nor reports by itself.
pub proof fn law_run_ends_with_its_code(
    outcomes: Seq<bool>,
    code: u8,
    daemon: bool,
    full_rebuild: bool,
    i: int,
)
    requires
        0 < i <= outcomes.len(),
        run_steps(outcomes, code, daemon, full_rebuild)[i] is Exit,
        !(run_steps(outcomes, code, daemon, full_rebuild)[i - 1] is Exit),
    ensures
        run_steps(outcomes, code, daemon, full_rebuild)[i] == Step::Exit(
            exit_code(
                run_steps(outcomes, code, daemon, full_rebuild)[i - 1],
                outcomes[i - 1],
                code,
            ),
        ),
        outcomes[i - 1] ==> run_steps(outcomes, code, daemon, full_rebuild)[i - 1] == if daemon {
            Step::RunDaemon
        } else {
            Step::Report
        },
{
    let all = run_steps(outcomes, code, daemon, full_rebuild);
    steps::lemma_trace(
        Step::CheckDirectory,
        |step: Step, ok: bool| step_after(step, ok, code, daemon, full_rebuild),
        outcomes,
    );
    assert(all[i] == step_after(all[i - 1], outcomes[i - 1], code, daemon, full_rebuild));
    lemma_branch(outcomes, code, daemon, full_rebuild, i - 1);
}

proof fn lemma_branch(outcomes: Seq<bool>, code: u8, daemon: bool, full_rebuild: bool, i: int)
    requires
        0 <= i <= outcomes.len(),
    ensures
        match run_steps(outcomes, code, daemon, full_rebuild)[i] {
            Step::RunDaemon => daemon,
            Step::Scan => !daemon,
            Step::Report => !daemon,
            _ => true,
        },
    decreases i,
{
    let all = run_steps(outcomes, code, daemon, full_rebuild);
    steps::lemma_trace(
        Step::CheckDirectory,
        |step: Step, ok: bool| step_after(step, ok, code, daemon, full_rebuild),
        outcomes,
    );
    if i > 0 {
        lemma_branch(outcomes, code, daemon, full_rebuild, i - 1);
        assert(all[i] == step_after(all[i - 1], outcomes[i - 1], code, daemon, full_rebuild));
    }
}

/// What kind of run it is.
pub fn mode_name(daemon: bool, full_rebuild: bool) -> (r: &'static str)
    ensures
        r@ == if daemon {
            "daemon"@
        } else if full_rebuild {
            "full rebuild"@
        } else {
            "incremental"@
        },
{
    if daemon {
        "daemon"
    } else if full_rebuild {
        "full rebuild"
    } else {
        "incremental"
    }
}

fn append_field(line: &mut String, name: &str, value: u64)
    ensures
        final(line)@ == old(line)@ + name@ + text::decimal(value as nat),
{
    line.append(name);
    line.append(text::decimal_text(value).as_str());
}

/// What is said at the start of a run.
pub open spec fn start_text(
    root: Seq<char>,
    host: Seq<char>,
    port: nat,
    collection: Seq<char>,
    mode: Seq<char>,
) -> Seq<char> {
    "indexing "@ + root + " → "@ + host + ":"@ + text::decimal(port) + "  collection="@ + collection
        + " mode="@ + mode
}

/// What is said at the start of a run.
pub fn start_line(root: &str, host: &str, port: u16, collection: &str, mode: &str) -> (r: String)
    ensures
        r@ == start_text(root@, host@, port as nat, collection@, mode@),
{
    let mut s = "indexing ".to_string();
    s.append(root);
    s.append(" → ");
    s.append(host);
    append_field(&mut s, ":", port as u64);
    s.append("  collection=");
    s.append(collection);
    s.append(" mode=");
    s.append(mode);
    s
}

/// The numbers of files and chunks of a run.
pub open spec fn counts_text(stats: Stats) -> Seq<char> {
    "files="@ + text::decimal(stats.files as nat) + " added="@ + text::decimal(stats.added as nat)
        + " unchanged="@ + text::decimal(stats.unchanged as nat) + " deleted="@ + text::decimal(
        stats.deleted as nat,
    )
}

fn append_counts(line: &mut String, stats: &Stats)
    ensures
        final(line)@ == old(line)@ + counts_text(*stats),
{
    let ghost before = line@;
    append_field(line, "files=", stats.files as u64);
    append_field(line, " added=", stats.added as u64);
    append_field(line, " unchanged=", stats.unchanged as u64);
    append_field(line, " deleted=", stats.deleted as u64);
    proof {
        assert(line@ =~= before + counts_text(*stats));
    }
}

/// What is said at the end of a scan.
pub open spec fn done_text(
    stats: Stats,
    grammars: Seq<char>,
    collection: Seq<char>,
    count: nat,
) -> Seq<char> {
    "done. "@ + counts_text(stats) + " (tree-sitter="@ + text::decimal(stats.ts_chunks as nat)
        + ", window="@ + text::decimal(stats.win_chunks as nat) + ") skipped_binary="@
        + text::decimal(stats.skipped_bin as nat) + " grammars="@ + grammars + " collection="@
        + collection + " count="@ + text::decimal(count)
}

/// What is said at the end of a scan.
pub fn done_line(stats: &Stats, grammars: &str, collection: &str, count: usize) -> (r: String)
    ensures
        r@ == done_text(*stats, grammars@, collection@, count as nat),
{
    let mut s = "done. ".to_string();
    append_counts(&mut s, stats);
    append_field(&mut s, " (tree-sitter=", stats.ts_chunks as u64);
    append_field(&mut s, ", window=", stats.win_chunks as u64);
    append_field(&mut s, ") skipped_binary=", stats.skipped_bin as u64);
    s.append(" grammars=");
    s.append(grammars);
    s.append(" collection=");
    s.append(collection);
    append_field(&mut s, " count=", count as u64);
    s
}

/// What the live indexer says once it has scanned the root.
pub open spec fn synced_text(stats: Stats, chunks: nat, grammars: Seq<char>) -> Seq<char> {
    "daemon: initial sync done — "@ + counts_text(stats) + " chunks="@ + text::decimal(chunks)
        + " grammars="@ + grammars
}

/// What the live indexer says once it has scanned the root.
pub fn synced_line(stats: &Stats, chunks: usize, grammars: &str) -> (r: String)
    ensures
        r@ == synced_text(*stats, chunks as nat, grammars@),
{
    let mut s = "daemon: initial sync done — ".to_string();
    append_counts(&mut s, stats);
    append_field(&mut s, " chunks=", chunks as u64);
    s.append(" grammars=");
    s.append(grammars);
    s
}

/// What the live indexer says after a batch of changes: nothing where none was made.
pub fn update_line(added: usize, deleted: usize, chunks: usize) -> (r: Option<String>)
    ensures
        match r {
            Some(s) => (added > 0 || deleted > 0) && s@ == "daemon: live update — added="@
                + text::decimal(added as nat) + " deleted="@ + text::decimal(deleted as nat)
                + " chunks="@ + text::decimal(chunks as nat),
            None => added == 0 && deleted == 0,
        },
{
    if added == 0 && deleted == 0 {
        return None;
    }
    let mut s = "daemon: live update — added=".to_string();
    s.append(text::decimal_text(added as u64).as_str());
    append_field(&mut s, " deleted=", deleted as u64);
    append_field(&mut s, " chunks=", chunks as u64);
    Some(s)
}

/// A run ends with 2 where the path is no directory, with 3 where the database is not
/// there, and with 1 where the collection cannot be opened, the scan or the report
/// fails, or the live indexer does; a run in which all goes well ends with 0, or as the
/// live indexer does.
pub proof fn law_exit_codes(code: u8, daemon: bool, full_rebuild: bool, ok: bool)
    ensures
        step_after(Step::CheckDirectory, false, code, daemon, full_rebuild) == Step::Exit(2),
        step_after(Step::Heartbeat, false, code, daemon, full_rebuild) == Step::Exit(3),
        step_after(Step::OpenCollection, false, code, daemon, full_rebuild) == Step::Exit(1),
        step_after(Step::Scan, false, code, daemon, full_rebuild) == Step::Exit(1),
        step_after(Step::Report, false, code, daemon, full_rebuild) == Step::Exit(1),
        step_after(Step::RunDaemon, false, code, daemon, full_rebuild) == Step::Exit(1),
        EXIT_WATCH_FAILED == 4,
        ({
            let second = step_after(Step::CheckDirectory, true, code, daemon, full_rebuild);
            let third = step_after(second, true, code, daemon, full_rebuild);
            let opened = if full_rebuild {
                step_after(third, ok, code, daemon, full_rebuild)
            } else {
                third
            };
            let work = step_after(opened, true, code, daemon, full_rebuild);
            let last = step_after(work, true, code, daemon, full_rebuild);
            &&& second == Step::Heartbeat
            &&& full_rebuild ==> third == Step::DeleteCollection
            &&& opened == Step::OpenCollection
            &&& daemon ==> work == Step::RunDaemon && last == Step::Exit(code)
            &&& !daemon ==> {
                &&& work == Step::Scan
                &&& last == Step::Report
                &&& step_after(last, true, code, daemon, full_rebuild) == Step::Exit(0)
            }
        }),
{
}

/// A run says of itself that it is a live one, a rebuild, or an update.
pub proof fn law_mode_names(daemon: bool, full_rebuild: bool, r: &'static str)
    requires
        call_ensures(mode_name, (daemon, full_rebuild), r),
    ensures
        daemon <==> r@ == "daemon"@,
        r@ == "full rebuild"@ <==> full_rebuild && !daemon,
        r@ == "incremental"@ <==> !full_rebuild && !daemon,
{
    reveal_strlit("daemon");
    reveal_strlit("full rebuild");
    reveal_strlit("incremental");
    assert("daemon"@.len() == 6 && "full rebuild"@.len() == 12 && "incremental"@.len() == 11);
}

/// A batch that changed nothing is not reported, and any other is.
pub proof fn law_changes_are_reported(added: usize, deleted: usize, chunks: usize, r: Option<String>)
    requires
        call_ensures(update_line, (added, deleted, chunks), r),
    ensures
        r is None <==> added == 0 && deleted == 0,
{
}

/// A scan ends by saying, each under its name, how many files it took, how many chunks
/// were added, were there already and were deleted, how many of the chunks are semantic
/// and how many windows, how many files are no text, and what is stored then.
pub proof fn law_end_of_a_scan_in_words(
    stats: Stats,
    grammars: &str,
    collection: &str,
    count: usize,
    r: String,
)
    requires
        call_ensures(done_line, (&stats, grammars, collection, count), r),
    ensures
        r@ == "done. files="@ + text::decimal(stats.files as nat) + " added="@ + text::decimal(
            stats.added as nat,
        ) + " unchanged="@ + text::decimal(stats.unchanged as nat) + " deleted="@ + text::decimal(
            stats.deleted as nat,
        ) + " (tree-sitter="@ + text::decimal(stats.ts_chunks as nat) + ", window="@ + text::decimal(
            stats.win_chunks as nat,
        ) + ") skipped_binary="@ + text::decimal(stats.skipped_bin as nat) + " grammars="@ + grammars@
            + " collection="@ + collection@ + " count="@ + text::decimal(count as nat),
{
    reveal_strlit("done. ");
    reveal_strlit("files=");
    reveal_strlit("done. files=");
    assert("done. files="@ =~= "done. "@ + "files="@);
    let counts = "files="@ + text::decimal(stats.files as nat) + " added="@ + text::decimal(
        stats.added as nat,
    ) + " unchanged="@ + text::decimal(stats.unchanged as nat) + " deleted="@ + text::decimal(
        stats.deleted as nat,
    );
    assert("done. "@ + counts =~= "done. files="@ + text::decimal(stats.files as nat) + " added="@
        + text::decimal(stats.added as nat) + " unchanged="@ + text::decimal(stats.unchanged as nat)
        + " deleted="@ + text::decimal(stats.deleted as nat));
}

/// A run begins by naming its root, the host, the collection and its kind.
pub proof fn law_start_of_a_run_in_words(
    root: &str,
    host: &str,
    port: u16,
    collection: &str,
    mode: &str,
    r: String,
)
    requires
        call_ensures(start_line, (root, host, port, collection, mode), r),
    ensures
        r@ == "indexing "@ + root@ + " → "@ + host@ + ":"@ + text::decimal(port as nat)
            + "  collection="@ + collection@ + " mode="@ + mode@,
{
}

/// The live indexer says the same counts once it has scanned the root, and after a batch
/// what was added and deleted and how many chunks the root refers to.
pub proof fn law_live_indexer_in_words(
    stats: Stats,
    chunks: usize,
    grammars: &str,
    synced: String,
    added: usize,
    deleted: usize,
    update: Option<String>,
)
    requires
        call_ensures(synced_line, (&stats, chunks, grammars), synced),
        call_ensures(update_line, (added, deleted, chunks), update),
    ensures
        synced@ == "daemon: initial sync done — files="@ + text::decimal(stats.files as nat)
            + " added="@ + text::decimal(stats.added as nat) + " unchanged="@ + text::decimal(
            stats.unchanged as nat,
        ) + " deleted="@ + text::decimal(stats.deleted as nat) + " chunks="@ + text::decimal(
            chunks as nat,
        ) + " grammars="@ + grammars@,
        update is Some <==> added > 0 || deleted > 0,
        update is Some ==> update.unwrap()@ == "daemon: live update — added="@ + text::decimal(
            added as nat,
        ) + " deleted="@ + text::decimal(deleted as nat) + " chunks="@ + text::decimal(chunks as nat),
{
    reveal_strlit("daemon: initial sync done — ");
    reveal_strlit("files=");
    reveal_strlit("daemon: initial sync done — files=");
    assert("daemon: initial sync done — files="@ =~= "daemon: initial sync done — "@ + "files="@);
    let counts = "files="@ + text::decimal(stats.files as nat) + " added="@ + text::decimal(
        stats.added as nat,
    ) + " unchanged="@ + text::decimal(stats.unchanged as nat) + " deleted="@ + text::decimal(
        stats.deleted as nat,
    );
    assert("daemon: initial sync done — "@ + counts =~= "daemon: initial sync done — files="@
        + text::decimal(stats.files as nat) + " added="@ + text::decimal(stats.added as nat)
        + " unchanged="@ + text::decimal(stats.unchanged as nat) + " deleted="@ + text::decimal(
        stats.deleted as nat,
    ));
}

} // verus!
