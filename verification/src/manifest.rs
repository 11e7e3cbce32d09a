//! Manifests: which chunks each root refers to.
//!
//! The collection of chunks is shared between roots, so a root must not delete a
//! chunk that another one still refers to. Each root keeps a manifest of the ids it
//! refers to, in one or more parts of one generation. What counts of a root is its
//! latest generation.
use vstd::prelude::*;

use crate::ids::IdSet;
use crate::store::{FieldValue, FieldView};
use crate::{ids, splitlines, steps, store, text};

verus! {

/// A stored part of a manifest.
#[derive(Debug, Clone)]
pub struct ManifestRow {
    /// The root it belongs to; empty where that was not stored.
    pub roothash: String,
    /// Its generation; 0 where that was not stored.
    pub gen: u64,
    /// The ids, one to a line.
    pub doc: Option<String>,
}

/// The root that the fields of a part name.
pub open spec fn root_field(fields: Seq<(Seq<char>, FieldView)>) -> Seq<char> {
    match store::field(fields, "roothash"@) {
        Some(FieldView::Text(root)) => root,
        _ => Seq::empty(),
    }
}

/// The generation that the fields of a part name.
pub open spec fn gen_field(fields: Seq<(Seq<char>, FieldView)>) -> nat {
    match store::field(fields, "gen"@) {
        Some(FieldView::Number(gen)) => gen,
        _ => 0,
    }
}

/// The part of a manifest with these fields and this text.
pub fn row_of(fields: &Vec<(String, FieldValue)>, doc: Option<String>) -> (r: ManifestRow)
    ensures
        r.roothash@ == root_field(store::field_views(fields@)),
        r.gen == gen_field(store::field_views(fields@)),
        r.doc == doc,
{
    let roothash = match store::find_field(fields, "roothash") {
        Some(FieldValue::Text(root)) => root.clone(),
        _ => {
            let empty = String::new();
            proof {
                assert(empty@ =~= Seq::<char>::empty());
            }
            empty
        },
    };
    let gen: u64 = match store::find_field(fields, "gen") {
        Some(FieldValue::Number(n)) => *n,
        _ => 0,
    };
    ManifestRow { roothash, gen, doc }
}

/// The fields stored with a part.
pub open spec fn part_fields(
    roothash: Seq<char>,
    root: Seq<char>,
    gen: nat,
    part: nat,
) -> Seq<(Seq<char>, FieldView)> {
    seq![
        ("roothash"@, FieldView::Text(roothash)),
        ("root"@, FieldView::Text(root)),
        ("gen"@, FieldView::Number(gen)),
        ("part"@, FieldView::Number(part)),
    ]
}

/// The fields stored with a part.
pub fn fields_of_part(roothash: &str, root: &str, gen: u64, part: usize) -> (r: Vec<
    (String, FieldValue),
>)
    ensures
        store::field_views(r@) == part_fields(roothash@, root@, gen as nat, part as nat),
{
    let mut r: Vec<(String, FieldValue)> = Vec::new();
    r.push(("roothash".to_string(), FieldValue::Text(roothash.to_string())));
    r.push(("root".to_string(), FieldValue::Text(root.to_string())));
    r.push(("gen".to_string(), FieldValue::Number(gen)));
    r.push(("part".to_string(), FieldValue::Number(part as u64)));
    proof {
        assert(store::field_views(r@) =~= part_fields(roothash@, root@, gen as nat, part as nat));
    }
    r
}

/// The lines of `s` that are not empty.
pub open spec fn nonempty(lines: Seq<Seq<char>>) -> Seq<Seq<char>>
    decreases lines.len(),
{
    if lines.len() == 0 {
        Seq::empty()
    } else if lines.last().len() == 0 {
        nonempty(lines.drop_last())
    } else {
        nonempty(lines.drop_last()).push(lines.last())
    }
}

/// The ids that a part holds: its lines, the empty ones left out.
pub open spec fn part_ids(body: Seq<char>) -> Seq<Seq<char>> {
    nonempty(splitlines::text_lines(body))
}

/// The ids that a part holds: its lines, the empty ones left out.
pub fn split_ids(body: &str) -> (r: Vec<String>)
    ensures
        text::texts(r@) == part_ids(body@),
{
    let lines = splitlines::lines_of(body);
    let ghost all = text::slices(lines@);
    let mut r: Vec<String> = Vec::new();
    let mut i: usize = 0;
    proof {
        assert(text::texts(r@) =~= nonempty(all.take(0)));
    }
    while i < lines.len()
        invariant
            all == text::slices(lines@),
            i <= lines@.len(),
            text::texts(r@) == nonempty(all.take(i as int)),
        decreases lines@.len() - i,
    {
        let line = lines[i];
        let ghost before = r@;
        proof {
            assert(all.take(i + 1).drop_last() =~= all.take(i as int));
            assert(all.take(i + 1).last() == line@);
        }
        if !line.is_empty() {
            r.push(line.to_string());
            proof {
                assert(text::texts(r@) =~= text::texts(before).push(line@));
            }
        }
        i = i + 1;
    }
    proof {
        assert(all.take(lines@.len() as int) =~= all);
    }
    r
}

// ---------------------------------------------------------------------------
// Reading
// ---------------------------------------------------------------------------

/// The latest generation among the first `n` rows that belong to `root`; 0 where
/// there is none.
pub open spec fn latest(rows: Seq<ManifestRow>, n: int, root: Seq<char>) -> nat
    decreases n,
{
    if n <= 0 {
        0
    } else {
        let before = latest(rows, n - 1, root);
        if rows[n - 1].roothash@ == root && rows[n - 1].gen > before {
            rows[n - 1].gen as nat
        } else {
            before
        }
    }
}

/// Whether the row `i` belongs to the latest generation of its root.
pub open spec fn current(rows: Seq<ManifestRow>, i: int) -> bool {
    rows[i].gen == latest(rows, rows.len() as int, rows[i].roothash@)
}

/// Whether the row `i` holds the id.
pub open spec fn row_holds(rows: Seq<ManifestRow>, i: int, id: Seq<char>) -> bool {
    match rows[i].doc {
        Some(d) => part_ids(d@).contains(id),
        None => false,
    }
}

/// Whether a root is referred to by its hash in the row `i`.
pub open spec fn of_root(rows: Seq<ManifestRow>, i: int, root: Seq<char>) -> bool {
    rows[i].roothash@ == root
}

/// Whether the latest generation of the root holds the id.
pub open spec fn root_refers(rows: Seq<ManifestRow>, root: Seq<char>, id: Seq<char>) -> bool {
    exists|i: int|
        0 <= i < rows.len() && of_root(rows, i, root) && current(rows, i) && #[trigger] row_holds(
            rows,
            i,
            id,
        )
}

/// Whether the latest generation of some root holds the id.
pub open spec fn any_refers(rows: Seq<ManifestRow>, id: Seq<char>) -> bool {
    exists|i: int|
        0 <= i < rows.len() && current(rows, i) && #[trigger] row_holds(rows, i, id)
}

fn latest_gen(rows: &Vec<ManifestRow>, root: &str) -> (r: u64)
    ensures
        r == latest(rows@, rows@.len() as int, root@),
{
    let mut r: u64 = 0;
    let mut i: usize = 0;
    while i < rows.len()
        invariant
            i <= rows@.len(),
            r == latest(rows@, i as int, root@),
        decreases rows@.len() - i,
    {
        if text::str_eq(rows[i].roothash.as_str(), root) && rows[i].gen > r {
            r = rows[i].gen;
        }
        i = i + 1;
    }
    r
}

/// Adds the ids of a part.
fn take_part(out: &mut IdSet, doc: &Option<String>)
    requires
        old(out).wf(),
    ensures
        final(out).wf(),
        forall|id: Seq<char>| #[trigger]
            final(out)@.contains(id) <==> old(out)@.contains(id) || match *doc {
                Some(d) => part_ids(d@).contains(id),
                None => false,
            },
{
    match doc {
        Some(d) => {
            let list = split_ids(d.as_str());
            let ghost all = text::texts(list@);
            let ghost start = out@;
            let mut i: usize = 0;
            proof {
                assert(start.union(all.take(0).to_set()) =~= start);
            }
            while i < list.len()
                invariant
                    out.wf(),
                    all == text::texts(list@),
                    i <= list@.len(),
                    out@ == start.union(all.take(i as int).to_set()),
                decreases list@.len() - i,
            {
                out.insert(list[i].clone());
                proof {
                    assert(all[i as int] == list@[i as int]@);
                    ids::lemma_to_set_step(all, i as int);
                    assert(out@ =~= start.union(all.take(i + 1).to_set()));
                }
                i = i + 1;
            }
            proof {
                assert(all.take(list@.len() as int) =~= all);
            }
        },
        None => {},
    }
}

/// The ids that the root with the hash `root` refers to: those of its latest
/// generation.
pub fn read(rows: &Vec<ManifestRow>, root: &str) -> (r: IdSet)
    ensures
        r.wf(),
        forall|id: Seq<char>| #[trigger] r@.contains(id) <==> root_refers(rows@, root@, id),
{
    let gen = latest_gen(rows, root);
    let mut r = IdSet::new();
    let mut i: usize = 0;
    while i < rows.len()
        invariant
            r.wf(),
            gen == latest(rows@, rows@.len() as int, root@),
            i <= rows@.len(),
            forall|id: Seq<char>| #[trigger]
                r@.contains(id) <==> (exists|k: int|
                    0 <= k < i && of_root(rows@, k, root@) && current(rows@, k)
                        && #[trigger] row_holds(rows@, k, id)),
        decreases rows@.len() - i,
    {
        let ghost before = r@;
        let hit = text::str_eq(rows[i].roothash.as_str(), root) && rows[i].gen == gen;
        if hit {
            take_part(&mut r, &rows[i].doc);
        }
        proof {
            assert(hit == (of_root(rows@, i as int, root@) && current(rows@, i as int)));
            assert forall|id: Seq<char>| #[trigger] r@.contains(id) <==> (exists|k: int|
                0 <= k < i + 1 && of_root(rows@, k, root@) && current(rows@, k)
                    && #[trigger] row_holds(rows@, k, id)) by {
                assert(r@.contains(id) <==> before.contains(id) || (hit && row_holds(
                    rows@,
                    i as int,
                    id,
                )));
                if before.contains(id) {
                    let k = choose|k: int|
                        0 <= k < i && of_root(rows@, k, root@) && current(rows@, k)
                            && #[trigger] row_holds(rows@, k, id);
                    assert(row_holds(rows@, k, id));
                }
            }
        }
        i = i + 1;
    }
    r
}

/// The ids that any root refers to: those of the latest generation of each.
pub fn all_ids(rows: &Vec<ManifestRow>) -> (r: IdSet)
    ensures
        r.wf(),
        forall|id: Seq<char>| #[trigger] r@.contains(id) <==> any_refers(rows@, id),
{
    let mut r = IdSet::new();
    let mut i: usize = 0;
    while i < rows.len()
        invariant
            r.wf(),
            i <= rows@.len(),
            forall|id: Seq<char>| #[trigger]
                r@.contains(id) <==> (exists|k: int|
                    0 <= k < i && current(rows@, k) && #[trigger] row_holds(rows@, k, id)),
        decreases rows@.len() - i,
    {
        let ghost before = r@;
        let hit = rows[i].gen == latest_gen(rows, rows[i].roothash.as_str());
        if hit {
            take_part(&mut r, &rows[i].doc);
        }
        proof {
            assert forall|id: Seq<char>| #[trigger] r@.contains(id) <==> (exists|k: int|
                0 <= k < i + 1 && current(rows@, k) && #[trigger] row_holds(rows@, k, id)) by {
                assert(r@.contains(id) <==> before.contains(id) || (hit && row_holds(
                    rows@,
                    i as int,
                    id,
                )));
                if before.contains(id) {
                    let k = choose|k: int|
                        0 <= k < i && current(rows@, k) && #[trigger] row_holds(rows@, k, id);
                    assert(row_holds(rows@, k, id));
                }
            }
        }
        i = i + 1;
    }
    r
}

// ---------------------------------------------------------------------------
// Writing
// ---------------------------------------------------------------------------

/// A part of a manifest to store.
#[derive(Debug)]
pub struct Part {
    pub id: String,
    pub body: String,
    pub part: usize,
}

/// The id under which a part is stored.
pub open spec fn part_id(roothash: Seq<char>, gen: nat, part: nat) -> Seq<char> {
    "manifest-"@ + roothash + "-"@ + text::decimal(gen) + "-"@ + text::decimal(part)
}

/// A list cut into pieces of `size`, the last one possibly shorter.
pub open spec fn pieces<A>(list: Seq<A>, size: nat) -> Seq<Seq<A>>
    decreases list.len(),
{
    if list.len() == 0 || size == 0 {
        Seq::empty()
    } else if list.len() <= size {
        seq![list]
    } else {
        seq![list.take(size as int)] + pieces(list.skip(size as int), size)
    }
}

/// The parts that store `ids` as the generation `gen` of a root, at most `size` ids
/// in each.
pub fn manifest_parts(roothash: &str, gen: u64, ids: &Vec<String>, size: usize) -> (r: Vec<Part>)
    requires
        size > 0,
    ensures
        r@.len() == pieces(text::texts(ids@), size as nat).len(),
        forall|k: int|
            0 <= k < r@.len() ==> {
                &&& (#[trigger] r@[k]).id@ == part_id(roothash@, gen as nat, k as nat)
                &&& r@[k].body@ == text::join(
                    pieces(text::texts(ids@), size as nat)[k],
                    seq!['\n'],
                )
                &&& r@[k].part == k
            },
{
    let ghost all = text::texts(ids@);
    let ghost want = pieces(all, size as nat);
    let mut r: Vec<Part> = Vec::new();
    let mut i: usize = 0;
    proof {
        assert(all.skip(0) =~= all);
        reveal_strlit("\n");
        assert("\n"@ == seq!['\n']);
    }
    while i < ids.len()
        invariant
            size > 0,
            all == text::texts(ids@),
            want == pieces(all, size as nat),
            "\n"@ == seq!['\n'],
            i <= ids@.len(),
            r@.len() <= i,
            r@.len() + pieces(all.skip(i as int), size as nat).len() == want.len(),
            forall|k: int|
                r@.len() <= k < want.len() ==> #[trigger] want[k] == pieces(
                    all.skip(i as int),
                    size as nat,
                )[k - r@.len()],
            forall|k: int|
                0 <= k < r@.len() ==> {
                    &&& (#[trigger] r@[k]).id@ == part_id(roothash@, gen as nat, k as nat)
                    &&& r@[k].body@ == text::join(want[k], seq!['\n'])
                    &&& r@[k].part == k
                },
        decreases ids@.len() - i,
    {
        let ghost rest = all.skip(i as int);
        let end: usize = if ids.len() - i <= size {
            ids.len()
        } else {
            i + size
        };
        let mut body: String = String::new();
        let mut j: usize = i;
        while j < end
            invariant
                i <= j <= end <= ids@.len(),
                all == text::texts(ids@),
                "\n"@ == seq!['\n'],
                body@ == text::join(all.subrange(i as int, j as int), seq!['\n']),
            decreases end - j,
        {
            proof {
                let t = all.subrange(i as int, j + 1);
                assert(t.drop_last() =~= all.subrange(i as int, j as int));
                assert(t.last() == ids@[j as int]@);
                if j == i {
                    assert(Seq::<char>::empty() + ids@[j as int]@ =~= ids@[j as int]@);
                }
            }
            if j > i {
                body.append("\n");
            }
            body.append(ids[j].as_str());
            j = j + 1;
        }
        let part: usize = r.len();
        let id = part_id_text(roothash, gen, part);
        let ghost before = r@;
        proof {
            let now = pieces(rest, size as nat);
            assert(all.subrange(i as int, end as int) =~= now[0]) by {
                if rest.len() <= size {
                    assert(all.subrange(i as int, end as int) =~= rest);
                } else {
                    assert(all.subrange(i as int, end as int) =~= rest.take(size as int));
                }
            }
            assert(want[part as int] == now[0]);
            let later = pieces(all.skip(end as int), size as nat);
            if rest.len() <= size {
                assert(all.skip(end as int).len() == 0);
                assert(now.len() == 1);
            } else {
                assert(rest.skip(size as int) =~= all.skip(end as int));
                assert(now =~= seq![rest.take(size as int)] + later);
            }
            assert(now.len() == 1 + later.len());
            assert forall|k: int| part + 1 <= k < want.len() implies #[trigger] want[k] == later[k
                - part - 1] by {
                assert(want[k] == now[k - part]);
            }
        }
        r.push(Part { id, body, part });
        i = end;
    }
    proof {
        assert(pieces(all.skip(i as int), size as nat).len() == 0);
    }
    r
}

fn part_id_text(roothash: &str, gen: u64, part: usize) -> (r: String)
    ensures
        r@ == part_id(roothash@, gen as nat, part as nat),
{
    let mut id = "manifest-".to_string();
    id.append(roothash);
    id.append("-");
    id.append(text::decimal_text(gen).as_str());
    id.append("-");
    id.append(text::decimal_text(part as u64).as_str());
    id
}

/// Whether one of the parts is stored under the id.
pub open spec fn is_part(parts: Seq<Part>, id: Seq<char>) -> bool {
    exists|i: int| 0 <= i < parts.len() && (#[trigger] parts[i]).id@ == id
}

/// Those of the first `n` stored ids under which none of the parts is stored, in
/// order.
pub open spec fn stale_below(stored: Seq<String>, parts: Seq<Part>, n: int) -> Seq<Seq<char>>
    decreases n,
{
    if n <= 0 {
        Seq::empty()
    } else if is_part(parts, stored[n - 1]@) {
        stale_below(stored, parts, n - 1)
    } else {
        stale_below(stored, parts, n - 1).push(stored[n - 1]@)
    }
}

/// The stored ids to delete once the parts are stored: all but theirs.
pub fn stale_parts(stored: &Vec<String>, parts: &Vec<Part>) -> (r: Vec<String>)
    ensures
        text::texts(r@) == stale_below(stored@, parts@, stored@.len() as int),
{
    let mut r: Vec<String> = Vec::new();
    let mut i: usize = 0;
    proof {
        assert(text::texts(r@) =~= Seq::<Seq<char>>::empty());
    }
    while i < stored.len()
        invariant
            i <= stored@.len(),
            text::texts(r@) == stale_below(stored@, parts@, i as int),
        decreases stored@.len() - i,
    {
        let id = &stored[i];
        let ghost before = r@;
        let mut found = false;
        let mut k: usize = 0;
        while k < parts.len()
            invariant
                k <= parts@.len(),
                found == exists|j: int| 0 <= j < k && (#[trigger] parts@[j]).id@ == id@,
            decreases parts@.len() - k,
        {
            let ghost had = found;
            if text::str_eq(parts[k].id.as_str(), id.as_str()) {
                found = true;
            }
            proof {
                if had {
                    let j = choose|j: int| 0 <= j < k && (#[trigger] parts@[j]).id@ == id@;
                    assert(parts@[j].id@ == id@);
                }
                if found && !had {
                    assert(parts@[k as int].id@ == id@);
                }
            }
            k = k + 1;
        }
        if !found {
            r.push(id.clone());
            proof {
                assert(text::texts(r@) =~= text::texts(before).push(id@));
            }
        }
        i = i + 1;
    }
    r
}

// ---------------------------------------------------------------------------
// Requests
// ---------------------------------------------------------------------------

/// A step in writing a manifest.
#[derive(Debug, Clone, Copy, PartialEq, Eq, Structural)]
pub enum WriteStep {
    /// List the parts that are stored of the root.
    List,
    /// Add the parts of the new generation.
    Add,
    /// Delete the parts of older generations.
    Delete,
    /// It is written.
    Done,
    /// Give up with the error of the request.
    Fail,
}

/// What follows a step that succeeded or failed, where there are parts to add or not,
/// and older ones to delete or not. The new generation is stored before the older ones
/// are deleted; nothing follows a failure, and nothing is sent for no parts.
pub open spec fn write_step_after(step: WriteStep, ok: bool, parts: bool, stale: bool) -> WriteStep {
    match step {
        WriteStep::List => if !ok {
            WriteStep::Fail
        } else if parts {
            WriteStep::Add
        } else if stale {
            WriteStep::Delete
        } else {
            WriteStep::Done
        },
        WriteStep::Add => if !ok {
            WriteStep::Fail
        } else if stale {
            WriteStep::Delete
        } else {
            WriteStep::Done
        },
        WriteStep::Delete => if ok {
            WriteStep::Done
        } else {
            WriteStep::Fail
        },
        WriteStep::Done => WriteStep::Done,
        WriteStep::Fail => WriteStep::Fail,
    }
}

/// What follows a step in writing a manifest.
pub fn next_write_step(step: WriteStep, ok: bool, parts: bool, stale: bool) -> (r: WriteStep)
    ensures
        r == write_step_after(step, ok, parts, stale),
{
    match step {
        WriteStep::List => {
            if !ok {
                WriteStep::Fail
            } else if parts {
                WriteStep::Add
            } else if stale {
                WriteStep::Delete
            } else {
                WriteStep::Done
            }
        },
        WriteStep::Add => {
            if !ok {
                WriteStep::Fail
            } else if stale {
                WriteStep::Delete
            } else {
                WriteStep::Done
            }
        },
        WriteStep::Delete => {
            if ok {
                WriteStep::Done
            } else {
                WriteStep::Fail
            }
        },
        WriteStep::Done => WriteStep::Done,
        WriteStep::Fail => WriteStep::Fail,
    }
}

/// The steps in writing a manifest, given which of them succeed, from the first on.
pub open spec fn write_steps(outcomes: Seq<bool>, parts: bool, stale: bool) -> Seq<WriteStep> {
    steps::trace(
        WriteStep::List,
        |step: WriteStep, ok: bool| write_step_after(step, ok, parts, stale),
        outcomes,
    )
}

// ---------------------------------------------------------------------------
// Laws
// ---------------------------------------------------------------------------

/// Whether an id can stand on a line of its own.
pub open spec fn line_id(id: Seq<char>) -> bool {
    &&& id.len() > 0
    &&& id.last() != '\r'
    &&& forall|i: int| 0 <= i < id.len() ==> #[trigger] id[i] != '\n'
}

proof fn lemma_lines_of_join(list: Seq<Seq<char>>)
    requires
        list.len() > 0,
        forall|i: int| 0 <= i < list.len() ==> line_id(#[trigger] list[i]),
    ensures
        splitlines::text_lines(text::join(list, seq!['\n'])) == list,
    decreases list.len(),
{
    let s = text::join(list, seq!['\n']);
    let first = list[0];
    let k = first.len() as int;
    assert(line_id(first));
    assert(s.skip(0) =~= s);
    if list.len() == 1 {
        text::lemma_first_of_is(s, '\n', 0, k);
        assert(splitlines::text_lines(s) =~= list);
    } else {
        text::lemma_join_front(list, seq!['\n']);
        let tail = list.drop_first();
        assert forall|i: int| 0 <= i < tail.len() implies line_id(#[trigger] tail[i]) by {
            assert(tail[i] == list[i + 1]);
        }
        lemma_lines_of_join(tail);
        assert forall|i: int| 0 <= i < k implies #[trigger] s[i] != '\n' by {
            assert(s[i] == first[i]);
        }
        assert(s[k] == '\n');
        text::lemma_first_of_is(s, '\n', 0, k);
        assert(s.take(k) =~= first);
        assert(s.skip(k + 1) =~= text::join(tail, seq!['\n']));
        assert(splitlines::text_lines(s) =~= list);
    }
}

proof fn lemma_nonempty_keeps(list: Seq<Seq<char>>)
    requires
        forall|i: int| 0 <= i < list.len() ==> (#[trigger] list[i]).len() > 0,
    ensures
        nonempty(list) == list,
    decreases list.len(),
{
    if list.len() > 0 {
        let t = list.drop_last();
        assert forall|i: int| 0 <= i < t.len() implies (#[trigger] t[i]).len() > 0 by {
            assert(t[i] == list[i]);
        }
        lemma_nonempty_keeps(t);
        assert(list.last() == list[list.len() - 1]);
        assert(t.push(list.last()) =~= list);
    }
}

proof fn lemma_pieces_members<A>(list: Seq<A>, size: nat, x: A)
    requires
        size > 0,
    ensures
        list.contains(x) <==> exists|k: int|
            0 <= k < pieces(list, size).len() && (#[trigger] pieces(list, size)[k]).contains(x),
        forall|k: int, j: int|
            0 <= k < pieces(list, size).len() && 0 <= j < pieces(list, size)[k].len()
                ==> list.contains(#[trigger] pieces(list, size)[k][j]),
        forall|k: int| 0 <= k < pieces(list, size).len() ==> (#[trigger] pieces(list, size)[k]).len() > 0,
    decreases list.len(),
{
    let p = pieces(list, size);
    if list.len() == 0 {
    } else if list.len() <= size {
        assert(p[0] == list);
    } else {
        let head = list.take(size as int);
        let tail = list.skip(size as int);
        lemma_pieces_members(tail, size, x);
        let q = pieces(tail, size);
        assert(p[0] == head);
        assert forall|k: int| 1 <= k < p.len() implies #[trigger] p[k] == q[k - 1] by {}
        if list.contains(x) {
            let i = choose|i: int| 0 <= i < list.len() && list[i] == x;
            if i < size {
                assert(head[i] == x);
                assert(p[0].contains(x));
            } else {
                assert(tail[i - size] == x);
                let k = choose|k: int| 0 <= k < q.len() && (#[trigger] q[k]).contains(x);
                assert(p[k + 1].contains(x));
            }
        }
        assert forall|k: int, j: int|
            0 <= k < p.len() && 0 <= j < p[k].len() implies list.contains(#[trigger] p[k][j]) by {
            if k == 0 {
                assert(list[j] == head[j]);
            } else {
                assert(p[k] == q[k - 1]);
                assert(tail.contains(q[k - 1][j]));
                let i = choose|i: int| 0 <= i < tail.len() && tail[i] == q[k - 1][j];
                assert(list[size + i] == p[k][j]);
            }
        }
        if exists|k: int| 0 <= k < p.len() && (#[trigger] p[k]).contains(x) {
            let k = choose|k: int| 0 <= k < p.len() && (#[trigger] p[k]).contains(x);
            let j = choose|j: int| 0 <= j < p[k].len() && p[k][j] == x;
            assert(list.contains(p[k][j]));
        }
    }
}

/// Whether rows store `ids` as the generation `gen` of `root`, in parts of `size`.
pub open spec fn stores(
    rows: Seq<ManifestRow>,
    root: Seq<char>,
    gen: u64,
    ids: Seq<Seq<char>>,
    size: nat,
) -> bool {
    &&& rows.len() == pieces(ids, size).len()
    &&& forall|k: int|
        0 <= k < rows.len() ==> {
            &&& (#[trigger] rows[k]).roothash@ == root
            &&& rows[k].gen == gen
            &&& rows[k].doc is Some
            &&& rows[k].doc->0@ == text::join(pieces(ids, size)[k], seq!['\n'])
        }
}

proof fn lemma_latest(rows: Seq<ManifestRow>, n: int, root: Seq<char>, gen: u64)
    requires
        0 <= n <= rows.len(),
        forall|i: int| 0 <= i < n && of_root(rows, i, root) ==> (#[trigger] rows[i]).gen <= gen,
    ensures
        latest(rows, n, root) <= gen,
        (exists|i: int| 0 <= i < n && of_root(rows, i, root) && (#[trigger] rows[i]).gen == gen)
            ==> latest(rows, n, root) == gen,
    decreases n,
{
    if n > 0 {
        lemma_latest(rows, n - 1, root, gen);
        if exists|i: int| 0 <= i < n && of_root(rows, i, root) && (#[trigger] rows[i]).gen == gen {
            let i = choose|i: int|
                0 <= i < n && of_root(rows, i, root) && (#[trigger] rows[i]).gen == gen;
            if i < n - 1 {
                assert(rows[i].gen == gen);
            }
        }
        assert(of_root(rows, n - 1, root) ==> rows[n - 1].gen <= gen);
    }
}

/// A read gives back what was written: once the parts of a new generation are
/// stored, and whether or not the older ones have been deleted yet, the root refers
/// to the ids written and no others. So at no moment of a write does it refer to
/// anything but the ids before it or the ids after it.
pub proof fn law_read_after_write(
    older: Seq<ManifestRow>,
    newer: Seq<ManifestRow>,
    root: Seq<char>,
    gen: u64,
    ids: Seq<Seq<char>>,
    size: nat,
    id: Seq<char>,
)
    requires
        size > 0,
        ids.len() > 0,
        forall|i: int| 0 <= i < ids.len() ==> line_id(#[trigger] ids[i]),
        stores(newer, root, gen, ids, size),
        forall|i: int|
            0 <= i < older.len() && of_root(older, i, root) ==> (#[trigger] older[i]).gen < gen,
    ensures
        root_refers(older + newer, root, id) <==> ids.contains(id),
        root_refers(newer, root, id) <==> ids.contains(id),
{
    lemma_stored(older, newer, root, gen, ids, size, id);
    let none = Seq::<ManifestRow>::empty();
    lemma_stored(none, newer, root, gen, ids, size, id);
    assert(none + newer =~= newer);
}

proof fn lemma_stored(
    older: Seq<ManifestRow>,
    newer: Seq<ManifestRow>,
    root: Seq<char>,
    gen: u64,
    ids: Seq<Seq<char>>,
    size: nat,
    id: Seq<char>,
)
    requires
        size > 0,
        ids.len() > 0,
        forall|i: int| 0 <= i < ids.len() ==> line_id(#[trigger] ids[i]),
        stores(newer, root, gen, ids, size),
        forall|i: int|
            0 <= i < older.len() && of_root(older, i, root) ==> (#[trigger] older[i]).gen < gen,
    ensures
        root_refers(older + newer, root, id) <==> ids.contains(id),
{
    let rows = older + newer;
    let p = pieces(ids, size);
    let d = older.len() as int;
    lemma_pieces_members(ids, size, id);
    assert forall|i: int| 0 <= i < rows.len() && of_root(rows, i, root) implies (
    #[trigger] rows[i]).gen <= gen by {
        if i < d {
            assert(rows[i] == older[i]);
            assert(of_root(older, i, root));
        } else {
            assert(rows[i] == newer[i - d]);
        }
    }
    assert(newer.len() > 0);
    assert(rows[d] == newer[0]);
    assert(of_root(rows, d, root) && rows[d].gen == gen);
    lemma_latest(rows, rows.len() as int, root, gen);
    assert forall|k: int| 0 <= k < newer.len() implies #[trigger] row_holds(rows, d + k, id)
        == p[k].contains(id) by {
        assert(rows[d + k] == newer[k]);
        assert(p[k].len() > 0);
        assert forall|j: int| 0 <= j < p[k].len() implies line_id(#[trigger] p[k][j]) by {
            assert(ids.contains(p[k][j]));
        }
        lemma_lines_of_join(p[k]);
        lemma_nonempty_keeps(p[k]);
    }
    if root_refers(rows, root, id) {
        let i = choose|i: int|
            0 <= i < rows.len() && of_root(rows, i, root) && current(rows, i)
                && #[trigger] row_holds(rows, i, id);
        if i < d {
            assert(rows[i] == older[i]);
            assert(of_root(older, i, root));
        } else {
            assert(row_holds(rows, d + (i - d), id));
            assert(p[i - d].contains(id));
        }
    }
    if ids.contains(id) {
        let k = choose|k: int| 0 <= k < p.len() && (#[trigger] p[k]).contains(id);
        assert(rows[d + k] == newer[k]);
        assert(row_holds(rows, d + k, id));
        assert(of_root(rows, d + k, root) && current(rows, d + k));
    }
}

/// Parts are added only where there are any, and older parts are deleted only where
/// there are any and the new ones were added with success or there are none to add.
pub proof fn law_older_parts_deleted_last(
    outcomes: Seq<bool>,
    parts: bool,
    stale: bool,
    i: int,
)
    requires
        0 <= i <= outcomes.len(),
    ensures
        write_steps(outcomes, parts, stale)[i] == WriteStep::Add ==> parts,
        write_steps(outcomes, parts, stale)[i] == WriteStep::Delete ==> {
            &&& stale
            &&& !parts || steps::succeeded_before(
                write_steps(outcomes, parts, stale),
                outcomes,
                i,
                WriteStep::Add,
            )
        },
{
    let all = write_steps(outcomes, parts, stale);
    steps::lemma_trace(
        WriteStep::List,
        |step: WriteStep, ok: bool| write_step_after(step, ok, parts, stale),
        outcomes,
    );
    if i > 0 {
        assert(all[i] == write_step_after(all[i - 1], outcomes[i - 1], parts, stale));
        if all[i] == WriteStep::Delete && parts {
            assert(all[i - 1] == WriteStep::Add && outcomes[i - 1]);
        }
    }
}

/// A manifest counts as written where every step that was needed succeeded.
pub proof fn law_written_after_all_requests(
    outcomes: Seq<bool>,
    parts: bool,
    stale: bool,
    i: int,
)
    requires
        0 <= i <= outcomes.len(),
        write_steps(outcomes, parts, stale)[i] == WriteStep::Done,
    ensures
        parts ==> steps::succeeded_before(
            write_steps(outcomes, parts, stale),
            outcomes,
            i,
            WriteStep::Add,
        ),
        stale ==> steps::succeeded_before(
            write_steps(outcomes, parts, stale),
            outcomes,
            i,
            WriteStep::Delete,
        ),
    decreases i,
{
    let all = write_steps(outcomes, parts, stale);
    steps::lemma_trace(
        WriteStep::List,
        |step: WriteStep, ok: bool| write_step_after(step, ok, parts, stale),
        outcomes,
    );
    assert(i > 0);
    assert(all[i] == write_step_after(all[i - 1], outcomes[i - 1], parts, stale));
    if all[i - 1] == WriteStep::Done {
        law_written_after_all_requests(outcomes, parts, stale, i - 1);
        if parts {
            let j = choose|j: int|
                0 <= j < i - 1 && outcomes[j] && #[trigger] all[j] == WriteStep::Add;
            assert(all[j] == WriteStep::Add);
        }
        if stale {
            let j = choose|j: int|
                0 <= j < i - 1 && outcomes[j] && #[trigger] all[j] == WriteStep::Delete;
            assert(all[j] == WriteStep::Delete);
        }
    } else {
        law_older_parts_deleted_last(outcomes, parts, stale, i - 1);
        if all[i - 1] == WriteStep::Delete && parts {
            let j = choose|j: int|
                0 <= j < i - 1 && outcomes[j] && #[trigger] all[j] == WriteStep::Add;
            assert(all[j] == WriteStep::Add);
        }
    }
}

/// The rows of a collection at the place `i` of a write: `rest` are those of other
/// roots, `older` those of the root before the write and `newer` those that it adds.
pub open spec fn rows_at(
    outcomes: Seq<bool>,
    stale: bool,
    rest: Seq<ManifestRow>,
    older: Seq<ManifestRow>,
    newer: Seq<ManifestRow>,
    i: int,
) -> Seq<ManifestRow> {
    let all = write_steps(outcomes, newer.len() > 0, stale);
    let left = if steps::succeeded_before(all, outcomes, i, WriteStep::Delete) {
        rest
    } else {
        rest + older
    };
    if steps::succeeded_before(all, outcomes, i, WriteStep::Add) {
        left + newer
    } else {
        left
    }
}

/// At no moment of a write does the root refer to anything but the ids before it or the
/// ids after it: to those after it once the new parts are stored, or, where there are
/// none, once the older ones are deleted.
pub proof fn law_write_shows_old_or_new(
    outcomes: Seq<bool>,
    stale: bool,
    rest: Seq<ManifestRow>,
    older: Seq<ManifestRow>,
    newer: Seq<ManifestRow>,
    root: Seq<char>,
    gen: u64,
    ids: Seq<Seq<char>>,
    size: nat,
    i: int,
    id: Seq<char>,
)
    requires
        0 <= i <= outcomes.len(),
        size > 0,
        forall|k: int| 0 <= k < ids.len() ==> line_id(#[trigger] ids[k]),
        stores(newer, root, gen, ids, size),
        forall|k: int| 0 <= k < rest.len() ==> !of_root(rest, k, root),
        forall|k: int| 0 <= k < older.len() ==> (#[trigger] older[k]).gen < gen,
    ensures
        root_refers(rows_at(outcomes, stale, rest, older, newer, i), root, id) <==> if (
        steps::succeeded_before(
            write_steps(outcomes, ids.len() > 0, stale),
            outcomes,
            i,
            if ids.len() > 0 {
                WriteStep::Add
            } else {
                WriteStep::Delete
            },
        )) {
            ids.contains(id)
        } else {
            root_refers(rest + older, root, id)
        },
{
    let all = write_steps(outcomes, newer.len() > 0, stale);
    assert((newer.len() > 0) == (ids.len() > 0));
    let added = steps::succeeded_before(all, outcomes, i, WriteStep::Add);
    let deleted = steps::succeeded_before(all, outcomes, i, WriteStep::Delete);
    if deleted {
        let j = choose|j: int|
            0 <= j < i && outcomes[j] && #[trigger] all[j] == WriteStep::Delete;
        law_older_parts_deleted_last(outcomes, newer.len() > 0, stale, j);
        if newer.len() > 0 {
            let k = choose|k: int|
                0 <= k < j && outcomes[k] && #[trigger] all[k] == WriteStep::Add;
            assert(all[k] == WriteStep::Add);
            assert(added);
        }
    }
    if added {
        let j = choose|j: int| 0 <= j < i && outcomes[j] && #[trigger] all[j] == WriteStep::Add;
        law_older_parts_deleted_last(outcomes, newer.len() > 0, stale, j);
        assert forall|k: int|
            0 <= k < (rest + older).len() && of_root(rest + older, k, root) implies (
        #[trigger] (rest + older)[k]).gen < gen by {
            if k < rest.len() {
                assert(!of_root(rest, k, root));
            }
        }
        lemma_stored(rest + older, newer, root, gen, ids, size, id);
        lemma_stored(rest, newer, root, gen, ids, size, id);
    } else if deleted {
        law_no_parts_no_ids(rest, root, id);
    }
}

/// The fields stored with a part name its root and its generation.
pub proof fn law_part_fields_read_back(roothash: Seq<char>, root: Seq<char>, gen: nat, part: nat)
    ensures
        root_field(part_fields(roothash, root, gen, part)) == roothash,
        gen_field(part_fields(roothash, root, gen, part)) == gen,
{
    reveal_strlit("roothash");
    reveal_strlit("root");
    reveal_strlit("gen");
    assert("roothash"@.len() == 8 && "root"@.len() == 4 && "gen"@.len() == 3);
    let f = part_fields(roothash, root, gen, part);
    reveal_with_fuel(store::field, 4);
    assert(f.drop_first()[0] == f[1]);
    assert(f.drop_first().drop_first()[0] == f[2]);
}

/// A root with no part left refers to nothing: after an empty set is written, or the
/// manifest is removed.
pub proof fn law_no_parts_no_ids(rows: Seq<ManifestRow>, root: Seq<char>, id: Seq<char>)
    requires
        forall|i: int| 0 <= i < rows.len() ==> !of_root(rows, i, root),
    ensures
        !root_refers(rows, root, id),
{
}

/// What any root refers to is the union of what each root refers to.
pub proof fn law_union_of_roots(rows: Seq<ManifestRow>, id: Seq<char>)
    ensures
        any_refers(rows, id) <==> exists|root: Seq<char>| #[trigger] root_refers(rows, root, id),
{
    if any_refers(rows, id) {
        let i = choose|i: int|
            0 <= i < rows.len() && current(rows, i) && #[trigger] row_holds(rows, i, id);
        assert(of_root(rows, i, rows[i].roothash@));
        assert(root_refers(rows, rows[i].roothash@, id));
    }
    if exists|root: Seq<char>| #[trigger] root_refers(rows, root, id) {
        let root = choose|root: Seq<char>| #[trigger] root_refers(rows, root, id);
        let i = choose|i: int|
            0 <= i < rows.len() && of_root(rows, i, root) && current(rows, i)
                && #[trigger] row_holds(rows, i, id);
        assert(row_holds(rows, i, id));
    }
}

/// A root refers to the ids of its latest generation: those on the lines of its parts
/// that no other part of the root is newer than.
pub proof fn law_latest_generation_counts(rows: Seq<ManifestRow>, root: Seq<char>, id: Seq<char>)
    ensures
        root_refers(rows, root, id) <==> exists|i: int|
            {
                &&& 0 <= i < rows.len()
                &&& #[trigger] row_holds(rows, i, id)
                &&& rows[i].roothash@ == root
                &&& forall|j: int|
                    0 <= j < rows.len() && (#[trigger] rows[j]).roothash@ == root ==> rows[j].gen
                        <= rows[i].gen
            },
        any_refers(rows, id) <==> exists|i: int|
            {
                &&& 0 <= i < rows.len()
                &&& #[trigger] row_holds(rows, i, id)
                &&& forall|j: int|
                    0 <= j < rows.len() && (#[trigger] rows[j]).roothash@ == rows[i].roothash@
                        ==> rows[j].gen <= rows[i].gen
            },
{
    assert forall|i: int| 0 <= i < rows.len() implies #[trigger] current(rows, i) == (forall|j: int|
        0 <= j < rows.len() && (#[trigger] rows[j]).roothash@ == rows[i].roothash@ ==> rows[j].gen
            <= rows[i].gen) by {
        lemma_latest_is_max(rows, rows.len() as int, rows[i].roothash@);
    }
    if root_refers(rows, root, id) {
        let i = choose|i: int|
            0 <= i < rows.len() && of_root(rows, i, root) && current(rows, i)
                && #[trigger] row_holds(rows, i, id);
        assert(row_holds(rows, i, id) && current(rows, i));
    }
    if exists|i: int|
        {
            &&& 0 <= i < rows.len()
            &&& #[trigger] row_holds(rows, i, id)
            &&& rows[i].roothash@ == root
            &&& forall|j: int|
                0 <= j < rows.len() && (#[trigger] rows[j]).roothash@ == root ==> rows[j].gen
                    <= rows[i].gen
        } {
        let i = choose|i: int|
            {
                &&& 0 <= i < rows.len()
                &&& #[trigger] row_holds(rows, i, id)
                &&& rows[i].roothash@ == root
                &&& forall|j: int|
                    0 <= j < rows.len() && (#[trigger] rows[j]).roothash@ == root ==> rows[j].gen
                        <= rows[i].gen
            };
        assert(current(rows, i));
        assert(of_root(rows, i, root));
    }
    if any_refers(rows, id) {
        let i = choose|i: int|
            0 <= i < rows.len() && current(rows, i) && #[trigger] row_holds(rows, i, id);
        assert(row_holds(rows, i, id) && current(rows, i));
    }
    if exists|i: int|
        {
            &&& 0 <= i < rows.len()
            &&& #[trigger] row_holds(rows, i, id)
            &&& forall|j: int|
                0 <= j < rows.len() && (#[trigger] rows[j]).roothash@ == rows[i].roothash@
                    ==> rows[j].gen <= rows[i].gen
        } {
        let i = choose|i: int|
            {
                &&& 0 <= i < rows.len()
                &&& #[trigger] row_holds(rows, i, id)
                &&& forall|j: int|
                    0 <= j < rows.len() && (#[trigger] rows[j]).roothash@ == rows[i].roothash@
                        ==> rows[j].gen <= rows[i].gen
            };
        assert(current(rows, i));
    }
}

proof fn lemma_latest_is_max(rows: Seq<ManifestRow>, n: int, root: Seq<char>)
    requires
        0 <= n <= rows.len(),
    ensures
        forall|j: int|
            0 <= j < n && (#[trigger] rows[j]).roothash@ == root ==> rows[j].gen <= latest(
                rows,
                n,
                root,
            ),
        latest(rows, n, root) == 0 || exists|j: int|
            0 <= j < n && (#[trigger] rows[j]).roothash@ == root && rows[j].gen == latest(
                rows,
                n,
                root,
            ),
    decreases n,
{
    if n > 0 {
        lemma_latest_is_max(rows, n - 1, root);
        assert(rows[n - 1] == rows[n - 1]);
    }
}

/// A part lists its ids one to a line. Empty lines count for nothing.
pub proof fn law_ids_of_a_part(id: Seq<char>, rest: Seq<char>)
    requires
        forall|i: int| 0 <= i < id.len() ==> #[trigger] id[i] != '\n',
    ensures
        part_ids(Seq::empty()) == Seq::<Seq<char>>::empty(),
        id.len() > 0 ==> part_ids(id) == seq![id],
        part_ids(seq!['\n'] + rest) == part_ids(rest),
        id.len() > 0 && id.last() != '\r' ==> part_ids(id + seq!['\n'] + rest) == seq![id] + part_ids(
            rest,
        ),
{
    let none = Seq::<char>::empty();
    splitlines::law_text_lines_end_at_newlines(id, rest);
    splitlines::law_text_lines_end_at_newlines(none, rest);
    assert(none + seq!['\n'] + rest =~= seq!['\n'] + rest);
    let lines = splitlines::text_lines(rest);
    lemma_nonempty_front(none, lines);
    lemma_nonempty_front(id, lines);
    lemma_nonempty_front(id, Seq::empty());
    assert(seq![id] + Seq::<Seq<char>>::empty() =~= seq![id]);
    assert(nonempty(Seq::<Seq<char>>::empty()) =~= Seq::<Seq<char>>::empty());
    assert(part_ids(none) =~= Seq::<Seq<char>>::empty());
}

proof fn lemma_nonempty_front(first: Seq<char>, lines: Seq<Seq<char>>)
    ensures
        nonempty(seq![first] + lines) == if first.len() > 0 {
            seq![first] + nonempty(lines)
        } else {
            nonempty(lines)
        },
    decreases lines.len(),
{
    let all = seq![first] + lines;
    if lines.len() == 0 {
        assert(lines =~= Seq::<Seq<char>>::empty());
        assert(all.drop_last() =~= lines);
        assert(all.last() == first);
        assert(nonempty(lines) =~= lines);
        assert(nonempty(all) =~= if first.len() > 0 {
            seq![first] + nonempty(lines)
        } else {
            nonempty(lines)
        });
    } else {
        lemma_nonempty_front(first, lines.drop_last());
        assert(all.drop_last() =~= seq![first] + lines.drop_last());
        assert(nonempty(all) =~= if first.len() > 0 {
            seq![first] + nonempty(lines)
        } else {
            nonempty(lines)
        });
    }
}

/// The pieces of a list are the list again, put one behind the other; all are full but
/// the last, and none is empty.
pub proof fn law_pieces_make_the_list<A>(list: Seq<A>, size: nat)
    requires
        size > 0,
    ensures
        pieces(list, size).flatten() == list,
        forall|k: int|
            0 <= k < pieces(list, size).len() - 1 ==> (#[trigger] pieces(list, size)[k]).len() == size,
        forall|k: int|
            0 <= k < pieces(list, size).len() ==> 0 < (#[trigger] pieces(list, size)[k]).len() <= size,
    decreases list.len(),
{
    reveal(Seq::flatten);
    let p = pieces(list, size);
    if list.len() == 0 {
        assert(p.flatten() =~= list);
    } else if list.len() <= size {
        assert(p.drop_first() =~= Seq::<Seq<A>>::empty());
        assert(p.drop_first().flatten() =~= Seq::<A>::empty());
        assert(p.flatten() =~= list);
    } else {
        let rest = list.skip(size as int);
        law_pieces_make_the_list(rest, size);
        assert(p.drop_first() =~= pieces(rest, size));
        assert(p.flatten() =~= list.take(size as int) + rest);
        assert(list =~= list.take(size as int) + rest);
        assert(pieces(rest, size).len() > 0);
        assert forall|k: int| 0 < k < p.len() implies #[trigger] p[k] == pieces(rest, size)[k
            - 1] by {}
    }
}

/// Every part of every generation of a root has an id of its own, which tells what it
/// is.
pub proof fn law_part_ids_differ(roothash: Seq<char>, a: (nat, nat), b: (nat, nat))
    ensures
        part_id(roothash, a.0, a.1) == part_id(roothash, b.0, b.1) ==> a == b,
        ("manifest-"@ + roothash + "-"@).is_prefix_of(part_id(roothash, a.0, a.1)),
        part_id(roothash, a.0, a.1) == "manifest-"@ + roothash + "-"@ + text::decimal(a.0) + "-"@
            + text::decimal(a.1),
{
    reveal_strlit("-");
    assert("-"@ =~= seq!['-']);
    let head = "manifest-"@ + roothash + "-"@;
    let ha = head + text::decimal(a.0);
    let hb = head + text::decimal(b.0);
    lemma_no_dash(a.1);
    lemma_no_dash(b.1);
    text::lemma_rfind_after(ha, text::decimal(a.1), '-');
    text::lemma_rfind_after(hb, text::decimal(b.1), '-');
    let ia = part_id(roothash, a.0, a.1);
    let ib = part_id(roothash, b.0, b.1);
    assert(ia =~= ha + seq!['-'] + text::decimal(a.1));
    assert(ib =~= hb + seq!['-'] + text::decimal(b.1));
    assert(head =~= ia.take(head.len() as int));
    if ia == ib {
        assert(ia.skip(ha.len() as int + 1) =~= text::decimal(a.1));
        assert(ib.skip(hb.len() as int + 1) =~= text::decimal(b.1));
        assert(ia.subrange(head.len() as int, ha.len() as int) =~= text::decimal(a.0));
        assert(ib.subrange(head.len() as int, hb.len() as int) =~= text::decimal(b.0));
        text::lemma_decimal_digits(a.0);
        text::lemma_decimal_digits(b.0);
        text::lemma_decimal_digits(a.1);
        text::lemma_decimal_digits(b.1);
    }
}

proof fn lemma_no_dash(n: nat)
    ensures
        forall|i: int| 0 <= i < text::decimal(n).len() ==> #[trigger] text::decimal(n)[i] != '-',
{
    text::lemma_decimal_digits(n);
    let d = text::decimal(n);
    assert forall|i: int| 0 <= i < d.len() implies #[trigger] d[i] != '-' by {
        assert('0' <= d[i] <= '9');
    }
}

/// Of the stored ids those go that none of the new parts has, and they go in order.
pub proof fn law_stale_parts(stored: Seq<String>, parts: Seq<Part>)
    ensures
        stale_below(stored, parts, stored.len() as int) == text::texts(stored).filter(
            |id: Seq<char>| forall|i: int| 0 <= i < parts.len() ==> (#[trigger] parts[i]).id@ != id,
        ),
{
    lemma_stale_parts(stored, parts, stored.len() as int);
    assert(text::texts(stored).take(stored.len() as int) =~= text::texts(stored));
}

proof fn lemma_stale_parts(stored: Seq<String>, parts: Seq<Part>, n: int)
    requires
        0 <= n <= stored.len(),
    ensures
        stale_below(stored, parts, n) == text::texts(stored).take(n).filter(
            |id: Seq<char>| forall|i: int| 0 <= i < parts.len() ==> (#[trigger] parts[i]).id@ != id,
        ),
    decreases n,
{
    reveal(Seq::filter);
    if n > 0 {
        lemma_stale_parts(stored, parts, n - 1);
        let t = text::texts(stored).take(n);
        assert(t.drop_last() =~= text::texts(stored).take(n - 1));
        assert(t.last() == stored[n - 1]@);
    }
}

/// A part is stored with the hash and the path of its root, its generation and its
/// number, under these names.
pub proof fn law_part_field_names(roothash: Seq<char>, root: Seq<char>, gen: nat, part: nat)
    ensures
        ({
            let f = part_fields(roothash, root, gen, part);
            &&& store::field(f, "roothash"@) == Some(FieldView::Text(roothash))
            &&& store::field(f, "root"@) == Some(FieldView::Text(root))
            &&& store::field(f, "gen"@) == Some(FieldView::Number(gen))
            &&& store::field(f, "part"@) == Some(FieldView::Number(part))
            &&& root_field(f) == roothash
            &&& gen_field(f) == gen
        }),
{
    reveal_strlit("roothash");
    reveal_strlit("root");
    reveal_strlit("gen");
    reveal_strlit("part");
    let f = part_fields(roothash, root, gen, part);
    assert("roothash"@.len() == 8 && "root"@.len() == 4 && "gen"@.len() == 3 && "part"@.len() == 4);
    assert("root"@[0] != "part"@[0]);
    reveal_with_fuel(store::field, 5);
    assert(f.drop_first()[0] == f[1]);
    assert(f.drop_first().drop_first()[0] == f[2]);
    assert(f.drop_first().drop_first().drop_first()[0] == f[3]);
}

/// A part whose root or generation cannot be read belongs to no root and to the first
/// generation.
pub proof fn law_unreadable_parts(
    fields: Seq<(Seq<char>, FieldView)>,
    root: Seq<char>,
    gen: nat,
)
    ensures
        !(store::field(fields, "roothash"@) is Some && store::field(
            fields,
            "roothash"@,
        ).unwrap() is Text) ==> root_field(fields).len() == 0,
        !(store::field(fields, "gen"@) is Some && store::field(fields, "gen"@).unwrap() is Number)
            ==> gen_field(fields) == 0,
        store::field(fields, "roothash"@) == Some(FieldView::Text(root)) ==> root_field(fields)
            == root,
        store::field(fields, "gen"@) == Some(FieldView::Number(gen)) ==> gen_field(fields) == gen,
{
}

/// A write gives up exactly at the first request that fails.
pub proof fn law_write_gives_up(outcomes: Seq<bool>, parts: bool, stale: bool, i: int)
    requires
        0 < i <= outcomes.len(),
    ensures
        ({
            let all = write_steps(outcomes, parts, stale);
            &&& all[i - 1] != WriteStep::Done && all[i - 1] != WriteStep::Fail ==> (all[i]
                == WriteStep::Fail <==> !outcomes[i - 1])
            &&& all[i - 1] == WriteStep::Done ==> all[i] == WriteStep::Done
            &&& all[i - 1] == WriteStep::Fail ==> all[i] == WriteStep::Fail
        }),
{
    let all = write_steps(outcomes, parts, stale);
    steps::lemma_trace(
        WriteStep::List,
        |step: WriteStep, ok: bool| write_step_after(step, ok, parts, stale),
        outcomes,
    );
    assert(all[i] == write_step_after(all[i - 1], outcomes[i - 1], parts, stale));
}

} // verus!
