//! The one-shot scan: what is new is added, what is gone is deleted.
//!
//! The scan itself makes no request. `OneShot` takes the files one by one and
//! hands out the batches to add; once the last file is in, it hands out the rest
//! and the batches of ids to delete. The requests are made by the caller, who
//! reports how many records each of them concerned.
//!
//! Which request comes when is up to `next_scan_step`. A root that shares its
//! collection with others has a manifest: it is written before anything is added, and
//! nothing is deleted. A root that has its collection to itself adds each batch as it
//! fills, and deletes what is gone at the end. The embedding model is loaded for the
//! first batch, so a scan with nothing new does without it.
use vstd::prelude::*;

use crate::config::BATCH;
use crate::ids::IdSet;
use crate::store::{Record, RecordView, Stats};
use crate::{steps, store, text};

verus! {

/// The ids of a list of records.
pub open spec fn ids_of(records: Seq<RecordView>) -> Set<Seq<char>>
    decreases records.len(),
{
    if records.len() == 0 {
        Set::empty()
    } else {
        ids_of(records.drop_last()).insert(records.last().id)
    }
}

/// The records whose id is not among `existing`, in order.
pub open spec fn fresh(records: Seq<RecordView>, existing: Set<Seq<char>>) -> Seq<RecordView>
    decreases records.len(),
{
    if records.len() == 0 {
        Seq::empty()
    } else if existing.contains(records.last().id) {
        fresh(records.drop_last(), existing)
    } else {
        fresh(records.drop_last(), existing).push(records.last())
    }
}

/// The lists in order, with nothing between them.
pub open spec fn concat<A>(lists: Seq<Seq<A>>) -> Seq<A>
    decreases lists.len(),
{
    if lists.len() == 0 {
        Seq::empty()
    } else {
        concat(lists.drop_last()) + lists.last()
    }
}

/// The views of a list of batches.
pub open spec fn batch_views(v: Seq<Vec<Record>>) -> Seq<Seq<RecordView>> {
    Seq::new(v.len(), |i: int| store::record_views(v[i]@))
}

/// The views of a list of batches of ids.
pub open spec fn id_batches(v: Seq<Vec<String>>) -> Seq<Seq<Seq<char>>> {
    Seq::new(v.len(), |i: int| text::texts(v[i]@))
}

/// A one-shot scan under way.
pub struct OneShot {
    existing: IdSet,
    seen: IdSet,
    buffer: Vec<Record>,
    stats: Stats,
    taken: Ghost<Seq<RecordView>>,
    handed: Ghost<Seq<RecordView>>,
}

impl OneShot {
    /// The ids that were stored when the scan began.
    pub closed spec fn existing(self) -> Set<Seq<char>> {
        self.existing@
    }

    /// All records of the files taken so far, in order.
    pub closed spec fn taken(self) -> Seq<RecordView> {
        self.taken@
    }

    /// All records handed out so far, in order.
    pub closed spec fn handed(self) -> Seq<RecordView> {
        self.handed@
    }

    /// The records that wait for their batch to fill.
    pub closed spec fn waiting(self) -> Seq<RecordView> {
        store::record_views(self.buffer@)
    }

    /// What has been counted so far.
    pub closed spec fn counts(self) -> Stats {
        self.stats
    }

    /// The sets of ids are well-formed, the ids of the files taken are known, and every
    /// record is accounted for.
    pub closed spec fn wf(self) -> bool {
        &&& self.existing.wf()
        &&& self.seen.wf()
        &&& self.seen@ == ids_of(self.taken@)
        &&& self.settled()
    }

    /// Whether every record of the files taken is accounted for: those with a new id
    /// have been handed out or wait, less than a batch of them, and the others have
    /// been counted as unchanged.
    pub open spec fn settled(self) -> bool {
        &&& self.handed() + self.waiting() == fresh(self.taken(), self.existing())
        &&& self.waiting().len() < BATCH
        &&& self.counts().unchanged + fresh(self.taken(), self.existing()).len()
            == self.taken().len()
    }

    /// A scan that starts with the ids stored so far.
    pub fn new(existing: IdSet) -> (r: OneShot)
        requires
            existing.wf(),
        ensures
            r.wf(),
            r.existing() == existing@,
            r.taken() == Seq::<RecordView>::empty(),
            r.handed() == Seq::<RecordView>::empty(),
            r.waiting() == Seq::<RecordView>::empty(),
            r.counts().files == 0,
            r.counts().added == 0,
            r.counts().unchanged == 0,
            r.counts().deleted == 0,
            r.counts().ts_chunks == 0,
            r.counts().win_chunks == 0,
            r.counts().skipped_bin == 0,
    {
        let r = OneShot {
            existing,
            seen: IdSet::new(),
            buffer: Vec::new(),
            stats: Stats::default(),
            taken: Ghost(Seq::empty()),
            handed: Ghost(Seq::empty()),
        };
        proof {
            assert(r.waiting() =~= Seq::<RecordView>::empty());
            assert(r.handed@ + store::record_views(r.buffer@) =~= fresh(r.taken@, r.existing@));
        }
        r
    }

    /// A scan that starts with the ids that were fetched; where they could not be, with
    /// none.
    pub fn start(fetched: Option<IdSet>) -> (r: OneShot)
        requires
            fetched is Some ==> (fetched->0).wf(),
        ensures
            r.wf(),
            r.existing() == match fetched {
                Some(existing) => existing@,
                None => Set::<Seq<char>>::empty(),
            },
            r.taken() == Seq::<RecordView>::empty(),
            r.handed() == Seq::<RecordView>::empty(),
            r.waiting() == Seq::<RecordView>::empty(),
            r.counts().files == 0,
            r.counts().added == 0,
            r.counts().unchanged == 0,
            r.counts().deleted == 0,
            r.counts().ts_chunks == 0,
            r.counts().win_chunks == 0,
            r.counts().skipped_bin == 0,
    {
        match fetched {
            Some(existing) => OneShot::new(existing),
            None => OneShot::new(IdSet::new()),
        }
    }

    /// Whether the counters have room for one more file with these counts.
    pub open spec fn has_room(self, records: nat, ts: nat, win: nat, ok: bool) -> bool {
        if ok {
            &&& self.counts().files < usize::MAX
            &&& self.counts().unchanged + records <= usize::MAX
            &&& self.counts().ts_chunks + ts <= usize::MAX
            &&& self.counts().win_chunks + win <= usize::MAX
        } else {
            self.counts().skipped_bin < usize::MAX
        }
    }

    /// Takes a file: its records, how many of them are semantic and how many are
    /// windows, and whether it is text. Hands out the batches that are full, in order.
    pub fn take_file(
        &mut self,
        records: Vec<Record>,
        ts: usize,
        win: usize,
        ok: bool,
    ) -> (batches: Vec<Vec<Record>>)
        requires
            old(self).wf(),
            old(self).has_room(records@.len(), ts as nat, win as nat, ok),
        ensures
            final(self).wf(),
            final(self).existing() == old(self).existing(),
            final(self).taken() == if ok {
                old(self).taken() + store::record_views(records@)
            } else {
                old(self).taken()
            },
            final(self).handed() == old(self).handed() + concat(batch_views(batches@)),
            forall|i: int| 0 <= i < batches@.len() ==> (#[trigger] batches@[i])@.len() == BATCH,
            final(self).settled(),
            final(self).counts().files == old(self).counts().files + if ok {
                1int
            } else {
                0int
            },
            final(self).counts().skipped_bin == old(self).counts().skipped_bin + if ok {
                0int
            } else {
                1int
            },
            final(self).counts().ts_chunks == old(self).counts().ts_chunks + if ok {
                ts as int
            } else {
                0
            },
            final(self).counts().win_chunks == old(self).counts().win_chunks + if ok {
                win as int
            } else {
                0
            },
            final(self).counts().added == old(self).counts().added,
            final(self).counts().deleted == old(self).counts().deleted,
    {
        let mut batches: Vec<Vec<Record>> = Vec::new();
        proof {
            assert(batch_views(batches@) =~= Seq::<Seq<RecordView>>::empty());
            assert(self.handed@ + concat(batch_views(batches@)) =~= self.handed@);
        }
        if !ok {
            self.stats.skipped_bin = self.stats.skipped_bin + 1;
            return batches;
        }
        self.stats.files = self.stats.files + 1;
        self.stats.ts_chunks = self.stats.ts_chunks + ts;
        self.stats.win_chunks = self.stats.win_chunks + win;
        let ghost all = store::record_views(records@);
        let ghost start = self.taken@;
        let ghost sent = self.handed@;
        let ghost n = records@.len();
        let mut rest = records;
        // The records are taken off the back, so the list is turned round first.
        let mut reversed: Vec<Record> = Vec::new();
        while rest.len() > 0
            invariant
                rest@.len() + reversed@.len() == n,
                rest@ + reversed@.reverse() == records@,
            decreases rest@.len(),
        {
            let ghost before = rest@;
            let ghost turned = reversed@;
            match rest.pop() {
                Some(r) => {
                    reversed.push(r);
                    proof {
                        assert(before =~= rest@.push(r));
                        assert(reversed@.reverse() =~= seq![r] + turned.reverse());
                        assert(rest@ + reversed@.reverse() =~= before + turned.reverse());
                    }
                },
                None => {},
            }
        }
        proof {
            assert(rest@ + reversed@.reverse() =~= reversed@.reverse());
            assert(start + all.take(0) =~= start);
        }
        while reversed.len() > 0
            invariant
                n == records@.len(),
                all == store::record_views(records@),
                reversed@.len() <= n,
                reversed@.reverse() == records@.skip(n - reversed@.len()),
                self.wf(),
                self.existing@ == old(self).existing@,
                self.taken@ == start + all.take(n - reversed@.len()),
                self.handed@ == sent + concat(batch_views(batches@)),
                forall|i: int| 0 <= i < batches@.len() ==> (#[trigger] batches@[i])@.len() == BATCH,
                self.stats.unchanged + reversed@.len() <= old(self).stats.unchanged + n,
                old(self).stats.unchanged + n <= usize::MAX,
                self.stats.files == old(self).stats.files + 1,
                self.stats.ts_chunks == old(self).stats.ts_chunks + ts,
                self.stats.win_chunks == old(self).stats.win_chunks + win,
                self.stats.skipped_bin == old(self).stats.skipped_bin,
                self.stats.added == old(self).stats.added,
                self.stats.deleted == old(self).stats.deleted,
            decreases reversed@.len(),
        {
            let ghost k = n - reversed@.len();
            let ghost left = reversed@;
            let record = match reversed.pop() {
                Some(r) => r,
                None => {
                    return batches;
                },
            };
            proof {
                assert(left.reverse()[0] == record);
                assert(records@.skip(k)[0] == records@[k]);
                assert(all[k] == record@);
                assert(reversed@.reverse() =~= left.reverse().skip(1));
                assert(reversed@.reverse() =~= records@.skip(k + 1));
                assert(start + all.take(k + 1) =~= (start + all.take(k)).push(record@));
            }
            let ghost earlier = batches@;
            let ghost before = self.handed@;
            match self.take_record(record) {
                Some(full) => {
                    batches.push(full);
                    proof {
                        let batch = store::record_views(full@);
                        assert(batch_views(batches@) =~= batch_views(earlier).push(batch));
                        assert(batch_views(earlier).push(batch).drop_last() =~= batch_views(
                            earlier,
                        ));
                        assert(sent + (concat(batch_views(earlier)) + batch) =~= before + batch);
                    }
                },
                None => {},
            }
        }
        proof {
            assert(all.take(n as int) =~= all);
        }
        batches
    }

    /// Takes one record: one whose id is stored counts as unchanged, any other waits,
    /// and a batch that is full is handed out.
    fn take_record(&mut self, record: Record) -> (r: Option<Vec<Record>>)
        requires
            old(self).wf(),
            old(self).stats.unchanged < usize::MAX,
        ensures
            final(self).wf(),
            final(self).existing@ == old(self).existing@,
            final(self).taken@ == old(self).taken@.push(record@),
            match r {
                Some(full) => full@.len() == BATCH && final(self).handed@ == old(self).handed@
                    + store::record_views(full@),
                None => final(self).handed@ == old(self).handed@,
            },
            final(self).stats.unchanged <= old(self).stats.unchanged + 1,
            final(self).stats.files == old(self).stats.files,
            final(self).stats.ts_chunks == old(self).stats.ts_chunks,
            final(self).stats.win_chunks == old(self).stats.win_chunks,
            final(self).stats.skipped_bin == old(self).stats.skipped_bin,
            final(self).stats.added == old(self).stats.added,
            final(self).stats.deleted == old(self).stats.deleted,
    {
        let ghost view = record@;
        proof {
            assert(self.taken@.push(view).drop_last() =~= self.taken@);
        }
        self.seen.insert(record.id.clone());
        if self.existing.contains(record.id.as_str()) {
            self.stats.unchanged = self.stats.unchanged + 1;
            self.taken = Ghost(self.taken@.push(view));
            return None;
        }
        let ghost before = self.buffer@;
        self.buffer.push(record);
        self.taken = Ghost(self.taken@.push(view));
        proof {
            assert(store::record_views(self.buffer@) =~= store::record_views(before).push(view));
            assert(self.handed@ + store::record_views(self.buffer@) =~= (self.handed@
                + store::record_views(before)).push(view));
        }
        if self.buffer.len() < BATCH {
            return None;
        }
        let mut full: Vec<Record> = Vec::new();
        std::mem::swap(&mut full, &mut self.buffer);
        self.handed = Ghost(self.handed@ + store::record_views(full@));
        proof {
            assert(self.handed@ + store::record_views(self.buffer@) =~= self.handed@);
        }
        Some(full)
    }

    /// Hands out what waits, once the last file is in: one batch, or none where nothing
    /// does.
    pub fn finish(&mut self) -> (batches: Vec<Vec<Record>>)
        requires
            old(self).wf(),
        ensures
            final(self).wf(),
            batches@.len() == if old(self).waiting().len() > 0 {
                1nat
            } else {
                0nat
            },
            concat(batch_views(batches@)) == old(self).waiting(),
            final(self).waiting() == Seq::<RecordView>::empty(),
            final(self).handed() == fresh(old(self).taken(), old(self).existing()),
            final(self).existing() == old(self).existing(),
            final(self).taken() == old(self).taken(),
            final(self).counts() == old(self).counts(),
    {
        let mut batches: Vec<Vec<Record>> = Vec::new();
        let mut batch: Vec<Record> = Vec::new();
        std::mem::swap(&mut batch, &mut self.buffer);
        let ghost rest = store::record_views(batch@);
        self.handed = Ghost(self.handed@ + rest);
        proof {
            assert(self.waiting() =~= Seq::<RecordView>::empty());
            assert(self.handed@ + store::record_views(self.buffer@) =~= self.handed@);
            assert(batch_views(batches@) =~= Seq::<Seq<RecordView>>::empty());
        }
        if batch.len() > 0 {
            batches.push(batch);
            proof {
                assert(batch_views(batches@) =~= seq![rest]);
                assert(seq![rest].drop_last() =~= Seq::<Seq<RecordView>>::empty());
                assert(concat(Seq::<Seq<RecordView>>::empty()) + rest =~= rest);
            }
        } else {
            proof {
                assert(rest =~= Seq::<RecordView>::empty());
            }
        }
        batches
    }

    /// Counts records that were added.
    pub fn note_added(&mut self, n: usize)
        requires
            old(self).wf(),
            old(self).counts().added + n <= usize::MAX,
        ensures
            final(self).wf(),
            final(self).existing() == old(self).existing(),
            final(self).taken() == old(self).taken(),
            final(self).handed() == old(self).handed(),
            final(self).waiting() == old(self).waiting(),
            final(self).counts() == (Stats {
                added: (old(self).counts().added + n) as usize,
                ..old(self).counts()
            }),
    {
        self.stats.added = self.stats.added + n;
    }

    /// Counts records that were deleted.
    pub fn note_deleted(&mut self, n: usize)
        requires
            old(self).wf(),
            old(self).counts().deleted + n <= usize::MAX,
        ensures
            final(self).wf(),
            final(self).existing() == old(self).existing(),
            final(self).taken() == old(self).taken(),
            final(self).handed() == old(self).handed(),
            final(self).waiting() == old(self).waiting(),
            final(self).counts() == (Stats {
                deleted: (old(self).counts().deleted + n) as usize,
                ..old(self).counts()
            }),
    {
        self.stats.deleted = self.stats.deleted + n;
    }

    /// What the scan did.
    pub fn stats(&self) -> (r: Stats)
        ensures
            r == self.counts(),
    {
        Stats {
            files: self.stats.files,
            added: self.stats.added,
            unchanged: self.stats.unchanged,
            deleted: self.stats.deleted,
            ts_chunks: self.stats.ts_chunks,
            win_chunks: self.stats.win_chunks,
            skipped_bin: self.stats.skipped_bin,
        }
    }

    /// The ids of the files taken: what the root refers to once it is scanned.
    pub fn membership(&self) -> (r: IdSet)
        requires
            self.wf(),
        ensures
            r.wf(),
            r@ == ids_of(self.taken()),
    {
        self.seen.duplicate()
    }

    /// The ids that were stored and are in no file taken, in batches to delete.
    pub fn stale(&self) -> (batches: Vec<Vec<String>>)
        requires
            self.wf(),
        ensures
            forall|i: int|
                0 <= i < batches@.len() ==> 1 <= (#[trigger] batches@[i])@.len() <= BATCH,
            forall|i: int|
                0 <= i < batches@.len() - 1 ==> (#[trigger] batches@[i])@.len() == BATCH,
            concat(id_batches(batches@)).no_duplicates(),
            concat(id_batches(batches@)).to_set() == self.existing().difference(
                ids_of(self.taken()),
            ),
    {
        let list = self.existing.to_vec();
        let mut batches: Vec<Vec<String>> = Vec::new();
        let mut batch: Vec<String> = Vec::new();
        let ghost all = text::texts(list@);
        let ghost mut gone = Seq::<Seq<char>>::empty();
        let mut i: usize = 0;
        proof {
            assert(id_batches(batches@) =~= Seq::<Seq<Seq<char>>>::empty());
            assert(concat(id_batches(batches@)) + text::texts(batch@) =~= gone);
        }
        while i < list.len()
            invariant
                self.wf(),
                all == text::texts(list@),
                all.no_duplicates(),
                forall|k: Seq<char>| #[trigger] all.contains(k) <==> self.existing@.contains(k),
                i <= list@.len(),
                batch@.len() < BATCH,
                forall|j: int| 0 <= j < batches@.len() ==> (#[trigger] batches@[j])@.len() == BATCH,
                concat(id_batches(batches@)) + text::texts(batch@) == gone,
                gone.no_duplicates(),
                forall|j: int|
                    0 <= j < gone.len() ==> (exists|k: int|
                        0 <= k < i && #[trigger] all[k] == gone[j]) && !self.seen@.contains(
                        #[trigger] gone[j],
                    ),
                forall|k: int|
                    0 <= k < i && !self.seen@.contains(#[trigger] all[k]) ==> gone.contains(all[k]),
            decreases list@.len() - i,
        {
            let id = &list[i];
            proof {
                assert(all[i as int] == id@);
            }
            if !self.seen.contains(id.as_str()) {
                let ghost prior = gone;
                let ghost earlier = batch@;
                batch.push(id.clone());
                proof {
                    gone = gone.push(id@);
                    assert(text::texts(batch@) =~= text::texts(earlier).push(id@));
                    assert(concat(id_batches(batches@)) + text::texts(batch@) =~= gone);
                    assert forall|j: int| 0 <= j < gone.len() implies (exists|k: int|
                        0 <= k < i + 1 && #[trigger] all[k] == gone[j]) && !self.seen@.contains(
                        #[trigger] gone[j],
                    ) by {
                        if j < prior.len() {
                            assert(gone[j] == prior[j]);
                        } else {
                            assert(all[i as int] == gone[j]);
                        }
                    }
                    assert(!prior.contains(id@)) by {
                        if prior.contains(id@) {
                            let j = choose|j: int| 0 <= j < prior.len() && prior[j] == id@;
                            let k = choose|k: int| 0 <= k < i && #[trigger] all[k] == prior[j];
                            assert(all[k] == all[i as int]);
                        }
                    }
                    assert forall|k: int|
                        0 <= k < i + 1 && !self.seen@.contains(#[trigger] all[k]) implies gone.contains(
                        all[k],
                    ) by {
                        if k < i {
                            let j = choose|j: int| 0 <= j < prior.len() && prior[j] == all[k];
                            assert(gone[j] == all[k]);
                        } else {
                            assert(gone[prior.len() as int] == all[k]);
                        }
                    }
                }
                if batch.len() >= BATCH {
                    let ghost before = batches@;
                    let mut full: Vec<String> = Vec::new();
                    std::mem::swap(&mut full, &mut batch);
                    batches.push(full);
                    proof {
                        lemma_push_batch(before, full);
                        assert(concat(id_batches(batches@)) + text::texts(batch@) =~= gone);
                    }
                }
            }
            i = i + 1;
        }
        if batch.len() > 0 {
            let ghost before = batches@;
            batches.push(batch);
            proof {
                lemma_push_batch(before, batch);
            }
        } else {
            proof {
                assert(concat(id_batches(batches@)) + text::texts(batch@) =~= concat(
                    id_batches(batches@),
                ));
            }
        }
        proof {
            let target = self.existing@.difference(self.seen@);
            assert forall|id: Seq<char>| gone.to_set().contains(id) == target.contains(id) by {
                if gone.contains(id) {
                    let j = choose|j: int| 0 <= j < gone.len() && gone[j] == id;
                    let k = choose|k: int| 0 <= k < i && #[trigger] all[k] == gone[j];
                    assert(all.contains(id));
                }
                if target.contains(id) {
                    assert(all.contains(id));
                    let k = choose|k: int| 0 <= k < all.len() && all[k] == id;
                    assert(gone.contains(all[k]));
                }
            }
            assert(gone.to_set() =~= target);
        }
        batches
    }
}

proof fn lemma_push_batch(batches: Seq<Vec<String>>, batch: Vec<String>)
    ensures
        concat(id_batches(batches.push(batch))) == concat(id_batches(batches)) + text::texts(
            batch@,
        ),
{
    let a = id_batches(batches);
    let b = id_batches(batches.push(batch));
    assert(b =~= a.push(text::texts(batch@)));
    assert(b.drop_last() =~= a);
}

// ---------------------------------------------------------------------------
// Requests
// ---------------------------------------------------------------------------

/// A step of a scan.
#[derive(Debug, Clone, Copy, PartialEq, Eq, Structural)]
pub enum ScanStep {
    /// The files to scan are known.
    Begin,
    /// Take a file; the batches that it fills go to those to add.
    TakeFile,
    /// Load the embedding model for the first batch to add, with all files taken or not.
    LoadModel { finished: bool },
    /// Add a full batch while there may be files left.
    AddFull,
    /// All files are taken; what waits goes to the batches to add.
    Finish,
    /// Write what the root refers to into its manifest.
    WriteManifest,
    /// Add one of the batches that are left.
    AddRest,
    /// Delete a batch of ids that are in no file any more.
    Delete,
    /// It is done.
    Done,
    /// Give up with the error of the request.
    Fail,
}

/// How a step went and what is left after it.
#[derive(Debug, Clone, Copy, PartialEq, Eq, Structural)]
pub struct Progress {
    /// The step succeeded.
    pub ok: bool,
    /// There are files to take.
    pub files: bool,
    /// There are batches to add.
    pub batches: bool,
    /// There are batches of ids to delete.
    pub stale: bool,
    /// The embedding model is loaded.
    pub model: bool,
}

/// The step that adds a batch, with all files taken or not. The embedding model is
/// loaded before the first.
pub open spec fn scan_step_to_add(finished: bool, model: bool) -> ScanStep {
    if !model {
        ScanStep::LoadModel { finished }
    } else if finished {
        ScanStep::AddRest
    } else {
        ScanStep::AddFull
    }
}

/// The step once no batch is left to add: with a manifest the scan is done, and without
/// one what is gone is deleted.
pub open spec fn scan_step_once_added(manifest: bool, stale: bool) -> ScanStep {
    if !manifest && stale {
        ScanStep::Delete
    } else {
        ScanStep::Done
    }
}

/// What follows a step of a scan, with a manifest or without. Any failure ends it.
pub open spec fn scan_step_after(step: ScanStep, manifest: bool, p: Progress) -> ScanStep {
    match step {
        ScanStep::Done => ScanStep::Done,
        ScanStep::Fail => ScanStep::Fail,
        _ => if !p.ok {
            ScanStep::Fail
        } else {
            match step {
                ScanStep::Begin | ScanStep::TakeFile | ScanStep::AddFull => if !manifest
                    && p.batches {
                    scan_step_to_add(false, p.model)
                } else if p.files {
                    ScanStep::TakeFile
                } else {
                    ScanStep::Finish
                },
                ScanStep::LoadModel { finished } => scan_step_to_add(finished, true),
                ScanStep::Finish if manifest => ScanStep::WriteManifest,
                ScanStep::Finish | ScanStep::WriteManifest | ScanStep::AddRest => if p.batches {
                    scan_step_to_add(true, p.model)
                } else {
                    scan_step_once_added(manifest, p.stale)
                },
                _ => if p.stale {
                    ScanStep::Delete
                } else {
                    ScanStep::Done
                },
            }
        },
    }
}

/// What follows a step of a scan.
pub fn next_scan_step(step: ScanStep, manifest: bool, p: Progress) -> (r: ScanStep)
    ensures
        r == scan_step_after(step, manifest, p),
{
    match step {
        ScanStep::Done => {
            return ScanStep::Done;
        },
        ScanStep::Fail => {
            return ScanStep::Fail;
        },
        _ => {},
    }
    if !p.ok {
        return ScanStep::Fail;
    }
    match step {
        ScanStep::Begin | ScanStep::TakeFile | ScanStep::AddFull => {
            if !manifest && p.batches {
                if p.model {
                    ScanStep::AddFull
                } else {
                    ScanStep::LoadModel { finished: false }
                }
            } else if p.files {
                ScanStep::TakeFile
            } else {
                ScanStep::Finish
            }
        },
        ScanStep::LoadModel { finished } => {
            if finished {
                ScanStep::AddRest
            } else {
                ScanStep::AddFull
            }
        },
        ScanStep::Finish | ScanStep::WriteManifest | ScanStep::AddRest => {
            if manifest && step == ScanStep::Finish {
                ScanStep::WriteManifest
            } else if p.batches {
                if p.model {
                    ScanStep::AddRest
                } else {
                    ScanStep::LoadModel { finished: true }
                }
            } else if !manifest && p.stale {
                ScanStep::Delete
            } else {
                ScanStep::Done
            }
        },
        _ => {
            if p.stale {
                ScanStep::Delete
            } else {
                ScanStep::Done
            }
        },
    }
}

/// The steps of a scan, given how each of them went, from the first on.
pub open spec fn scan_steps(manifest: bool, outcomes: Seq<Progress>) -> Seq<ScanStep> {
    steps::trace(
        ScanStep::Begin,
        |step: ScanStep, p: Progress| scan_step_after(step, manifest, p),
        outcomes,
    )
}

/// Whether the step was taken before the place `i` of a scan, and succeeded.
pub open spec fn scanned_before(
    all: Seq<ScanStep>,
    outcomes: Seq<Progress>,
    i: int,
    step: ScanStep,
) -> bool {
    exists|j: int| 0 <= j < i && outcomes[j].ok && #[trigger] all[j] == step
}

// ---------------------------------------------------------------------------
// Laws
// ---------------------------------------------------------------------------

/// With a manifest, a scan loads and adds nothing before the manifest is written with
/// success, and deletes nothing.
pub proof fn law_scan_writes_manifest_first(outcomes: Seq<Progress>, i: int)
    requires
        0 <= i <= outcomes.len(),
    ensures
        scan_steps(true, outcomes)[i] != ScanStep::AddFull,
        scan_steps(true, outcomes)[i] != (ScanStep::LoadModel { finished: false }),
        scan_steps(true, outcomes)[i] != ScanStep::Delete,
        scan_steps(true, outcomes)[i] == ScanStep::AddRest || scan_steps(true, outcomes)[i]
            == ScanStep::Done || scan_steps(true, outcomes)[i] is LoadModel ==> scanned_before(
            scan_steps(true, outcomes),
            outcomes,
            i,
            ScanStep::WriteManifest,
        ),
    decreases i,
{
    let all = scan_steps(true, outcomes);
    steps::lemma_trace(
        ScanStep::Begin,
        |step: ScanStep, p: Progress| scan_step_after(step, true, p),
        outcomes,
    );
    if i > 0 {
        law_scan_writes_manifest_first(outcomes, i - 1);
        assert(all[i] == scan_step_after(all[i - 1], true, outcomes[i - 1]));
        if all[i] == ScanStep::AddRest || all[i] == ScanStep::Done || all[i] is LoadModel {
            if all[i - 1] == ScanStep::WriteManifest {
                assert(outcomes[i - 1].ok);
            } else {
                let j = choose|j: int|
                    0 <= j < i - 1 && outcomes[j].ok && #[trigger] all[j]
                        == ScanStep::WriteManifest;
                assert(all[j] == ScanStep::WriteManifest);
            }
        }
    }
}

/// The embedding model is loaded only where a batch is due and it is not loaded yet, and
/// a batch is added only where it is loaded.
pub proof fn law_model_is_loaded_for_the_first_add(
    manifest: bool,
    outcomes: Seq<Progress>,
    i: int,
)
    requires
        0 <= i <= outcomes.len(),
    ensures
        scan_steps(manifest, outcomes)[i] is LoadModel ==> i > 0 && outcomes[i - 1].batches
            && !outcomes[i - 1].model,
        scan_steps(manifest, outcomes)[i] == ScanStep::AddFull || scan_steps(manifest, outcomes)[i]
            == ScanStep::AddRest ==> i > 0 && outcomes[i - 1].ok && (outcomes[i - 1].model
            || scan_steps(manifest, outcomes)[i - 1] is LoadModel),
{
    let all = scan_steps(manifest, outcomes);
    steps::lemma_trace(
        ScanStep::Begin,
        |step: ScanStep, p: Progress| scan_step_after(step, manifest, p),
        outcomes,
    );
    if i > 0 {
        assert(all[i] == scan_step_after(all[i - 1], manifest, outcomes[i - 1]));
    }
}

/// A scan with nothing to add needs no model: it neither loads one nor adds.
pub proof fn law_idle_scan_needs_no_model(manifest: bool, outcomes: Seq<Progress>, i: int)
    requires
        0 <= i <= outcomes.len(),
        forall|j: int| 0 <= j < outcomes.len() ==> !(#[trigger] outcomes[j]).batches,
    ensures
        !(scan_steps(manifest, outcomes)[i] is LoadModel),
        scan_steps(manifest, outcomes)[i] != ScanStep::AddFull,
        scan_steps(manifest, outcomes)[i] != ScanStep::AddRest,
    decreases i,
{
    let all = scan_steps(manifest, outcomes);
    steps::lemma_trace(
        ScanStep::Begin,
        |step: ScanStep, p: Progress| scan_step_after(step, manifest, p),
        outcomes,
    );
    if i > 0 {
        law_idle_scan_needs_no_model(manifest, outcomes, i - 1);
        assert(!outcomes[i - 1].batches);
        assert(all[i] == scan_step_after(all[i - 1], manifest, outcomes[i - 1]));
    }
}

/// Without a manifest, a scan writes none, and deletes only once all files are taken and
/// no batch is left to add.
pub proof fn law_scan_deletes_last(outcomes: Seq<Progress>, i: int)
    requires
        0 <= i <= outcomes.len(),
    ensures
        scan_steps(false, outcomes)[i] != ScanStep::WriteManifest,
        scan_steps(false, outcomes)[i] == ScanStep::Delete ==> exists|j: int|
            0 <= j < i && outcomes[j].ok && !outcomes[j].batches && (#[trigger] scan_steps(
                false,
                outcomes,
            )[j] == ScanStep::Finish || scan_steps(false, outcomes)[j] == ScanStep::AddRest),
    decreases i,
{
    let all = scan_steps(false, outcomes);
    steps::lemma_trace(
        ScanStep::Begin,
        |step: ScanStep, p: Progress| scan_step_after(step, false, p),
        outcomes,
    );
    if i > 0 {
        law_scan_deletes_last(outcomes, i - 1);
        assert(all[i] == scan_step_after(all[i - 1], false, outcomes[i - 1]));
        if all[i] == ScanStep::Delete && all[i - 1] == ScanStep::Delete {
            let j = choose|j: int|
                0 <= j < i - 1 && outcomes[j].ok && !outcomes[j].batches && (#[trigger] all[j]
                    == ScanStep::Finish || all[j] == ScanStep::AddRest);
            assert(all[j] == all[j]);
        }
    }
}

/// A scan is done only where nothing is left: no file, then no batch, and without a
/// manifest nothing that is gone.
pub proof fn law_scan_is_done_at_the_end(manifest: bool, outcomes: Seq<Progress>, i: int)
    requires
        0 < i <= outcomes.len(),
        scan_steps(manifest, outcomes)[i] == ScanStep::Done,
        scan_steps(manifest, outcomes)[i - 1] != ScanStep::Done,
    ensures
        outcomes[i - 1].ok,
        scan_steps(manifest, outcomes)[i - 1] != ScanStep::Delete ==> !outcomes[i - 1].batches,
        !manifest ==> !outcomes[i - 1].stale,
        manifest ==> scan_steps(manifest, outcomes)[i - 1] != ScanStep::Delete,
        scanned_before(scan_steps(manifest, outcomes), outcomes, i, ScanStep::Finish),
{
    let all = scan_steps(manifest, outcomes);
    steps::lemma_trace(
        ScanStep::Begin,
        |step: ScanStep, p: Progress| scan_step_after(step, manifest, p),
        outcomes,
    );
    assert(all[i] == scan_step_after(all[i - 1], manifest, outcomes[i - 1]));
    lemma_finished(manifest, outcomes, i);
    if manifest {
        law_scan_writes_manifest_first(outcomes, i - 1);
    }
}

proof fn lemma_finished(manifest: bool, outcomes: Seq<Progress>, i: int)
    requires
        0 <= i <= outcomes.len(),
    ensures
        match scan_steps(manifest, outcomes)[i] {
            ScanStep::WriteManifest | ScanStep::AddRest | ScanStep::Delete | ScanStep::Done =>
                scanned_before(scan_steps(manifest, outcomes), outcomes, i, ScanStep::Finish),
            ScanStep::LoadModel { finished } => finished ==> scanned_before(
                scan_steps(manifest, outcomes),
                outcomes,
                i,
                ScanStep::Finish,
            ),
            _ => true,
        },
    decreases i,
{
    let all = scan_steps(manifest, outcomes);
    steps::lemma_trace(
        ScanStep::Begin,
        |step: ScanStep, p: Progress| scan_step_after(step, manifest, p),
        outcomes,
    );
    if i > 0 {
        lemma_finished(manifest, outcomes, i - 1);
        assert(all[i] == scan_step_after(all[i - 1], manifest, outcomes[i - 1]));
        if scanned_before(all, outcomes, i - 1, ScanStep::Finish) {
            let j = choose|j: int|
                0 <= j < i - 1 && outcomes[j].ok && #[trigger] all[j] == ScanStep::Finish;
            assert(all[j] == ScanStep::Finish);
        }
    }
}

proof fn lemma_fresh_ids(records: Seq<RecordView>, existing: Set<Seq<char>>)
    ensures
        ids_of(fresh(records, existing)) == ids_of(records).difference(existing),
    decreases records.len(),
{
    if records.len() == 0 {
        assert(ids_of(fresh(records, existing)) =~= ids_of(records).difference(existing));
    } else {
        let t = records.drop_last();
        lemma_fresh_ids(t, existing);
        let f = fresh(t, existing);
        if !existing.contains(records.last().id) {
            assert(f.push(records.last()).drop_last() =~= f);
        }
        assert(ids_of(fresh(records, existing)) =~= ids_of(records).difference(existing));
    }
}

/// After a scan the store holds the ids of the files scanned and no others: those
/// stored before, with the new ones added and the stale ones deleted.
pub proof fn law_scan_converges(records: Seq<RecordView>, existing: Set<Seq<char>>)
    ensures
        existing.union(ids_of(fresh(records, existing))).difference(
            existing.difference(ids_of(records)),
        ) == ids_of(records),
{
    lemma_fresh_ids(records, existing);
    assert(existing.union(ids_of(fresh(records, existing))).difference(
        existing.difference(ids_of(records)),
    ) =~= ids_of(records));
}

/// The manifest of a scanned root refers to every record that the scan adds, and with
/// those added every id that it refers to is stored.
pub proof fn law_scan_manifest_covers_adds(records: Seq<RecordView>, existing: Set<Seq<char>>)
    ensures
        ids_of(fresh(records, existing)).subset_of(ids_of(records)),
        ids_of(records).subset_of(existing.union(ids_of(fresh(records, existing)))),
{
    lemma_fresh_ids(records, existing);
}

/// A scan of what is stored already adds nothing and deletes nothing.
pub proof fn law_scan_again(records: Seq<RecordView>)
    ensures
        fresh(records, ids_of(records)) == Seq::<RecordView>::empty(),
        ids_of(records).difference(ids_of(records)) == Set::<Seq<char>>::empty(),
{
    lemma_fresh_none(records, ids_of(records));
    assert(ids_of(records).difference(ids_of(records)) =~= Set::<Seq<char>>::empty());
}

proof fn lemma_fresh_none(records: Seq<RecordView>, existing: Set<Seq<char>>)
    requires
        ids_of(records).subset_of(existing),
    ensures
        fresh(records, existing) == Seq::<RecordView>::empty(),
    decreases records.len(),
{
    if records.len() > 0 {
        assert(ids_of(records).contains(records.last().id));
        assert(ids_of(records.drop_last()).subset_of(ids_of(records)));
        lemma_fresh_none(records.drop_last(), existing);
    }
}

/// The ids of records, those of them that are new, and lists put one behind the other,
/// each by its elements.
pub proof fn law_new_records(records: Seq<RecordView>, existing: Set<Seq<char>>, id: Seq<char>)
    ensures
        ids_of(records).contains(id) <==> exists|i: int|
            0 <= i < records.len() && (#[trigger] records[i]).id == id,
        fresh(records, existing) == records.filter(|r: RecordView| !existing.contains(r.id)),
    decreases records.len(),
{
    reveal(Seq::filter);
    if records.len() > 0 {
        let rest = records.drop_last();
        law_new_records(rest, existing, id);
        if ids_of(rest).contains(id) {
            let i = choose|i: int| 0 <= i < rest.len() && (#[trigger] rest[i]).id == id;
            assert(records[i].id == id);
        }
        if records.last().id == id {
            assert(records[records.len() - 1].id == id);
        }
        if exists|i: int| 0 <= i < records.len() && (#[trigger] records[i]).id == id {
            let i = choose|i: int| 0 <= i < records.len() && (#[trigger] records[i]).id == id;
            if i < rest.len() {
                assert(rest[i].id == id);
            }
        }
    }
}

/// At every point of a scan each record of the files taken is accounted for. One with an
/// id that was not stored has been handed out, in order, or waits with fewer than 2000
/// others; any other counts as unchanged.
pub proof fn law_records_are_accounted_for(scan: OneShot)
    requires
        scan.wf(),
    ensures
        ({
            let new = scan.taken().filter(|r: RecordView| !scan.existing().contains(r.id));
            &&& scan.handed() + scan.waiting() == new
            &&& scan.waiting().len() < 2000
            &&& scan.counts().unchanged == scan.taken().len() - new.len()
        }),
{
    law_new_records(scan.taken(), scan.existing(), Seq::empty());
}

/// Lists put one behind the other hold the elements of each in turn.
pub proof fn law_concat<A>(lists: Seq<Seq<A>>, last: Seq<A>)
    ensures
        concat(lists.push(last)) == concat(lists) + last,
        concat(Seq::<Seq<A>>::empty()) == Seq::<A>::empty(),
        concat(lists) == lists.flatten(),
    decreases lists.len(),
{
    assert(lists.push(last).drop_last() =~= lists);
    lists.lemma_flatten_and_flatten_alt_are_equivalent();
    lemma_concat_flattens(lists);
}

proof fn lemma_concat_flattens<A>(lists: Seq<Seq<A>>)
    ensures
        concat(lists) == lists.flatten_alt(),
    decreases lists.len(),
{
    if lists.len() > 0 {
        lemma_concat_flattens(lists.drop_last());
    }
}

/// A scan finishes only once no file is left to take, and gives up exactly at the first
/// step that fails before it is done.
pub proof fn law_scan_takes_every_file(manifest: bool, outcomes: Seq<Progress>, i: int)
    requires
        0 < i <= outcomes.len(),
    ensures
        ({
            let all = scan_steps(manifest, outcomes);
            &&& all[i] == ScanStep::Finish ==> outcomes[i - 1].ok && !outcomes[i - 1].files
            &&& all[i] == ScanStep::TakeFile ==> outcomes[i - 1].ok && outcomes[i - 1].files
            &&& all[i - 1] != ScanStep::Done && all[i - 1] != ScanStep::Fail ==> (all[i]
                == ScanStep::Fail <==> !outcomes[i - 1].ok)
            &&& all[i] == ScanStep::AddFull || all[i] == ScanStep::AddRest ==> outcomes[i - 1].batches
                || all[i - 1] is LoadModel
            &&& all[i] == ScanStep::Delete ==> outcomes[i - 1].stale
        }),
{
    let all = scan_steps(manifest, outcomes);
    steps::lemma_trace(
        ScanStep::Begin,
        |step: ScanStep, p: Progress| scan_step_after(step, manifest, p),
        outcomes,
    );
    assert(all[i] == scan_step_after(all[i - 1], manifest, outcomes[i - 1]));
}

} // verus!
