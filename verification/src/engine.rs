//! The sync engine: the state machine over the catalog.
//!
//! The engine never touches the network or the disk itself.  Its
//! callers drive the three phases — discovery, file-list refresh,
//! download — fetch pages and files, and hand the results back; each
//! transition here states exactly what it does to the catalog.

use vstd::prelude::*;
use crate::DataType;
use crate::catalog::{
    Catalog, DateRecord, FileRecord, RecModel, cat_wf, keys_unique, rec_wf, spec_contains_key,
    valid_name,
};
use crate::dates::{check_date_key, valid_date_key};
use crate::filter::{NameFilter, spec_accepts};

verus! {

broadcast use vstd::seq_lib::group_seq_lib_default;

/// A record as it is first discovered: nothing downloaded, the file
/// listing still to be fetched.
pub open spec fn empty_rec() -> RecModel {
    RecModel { downloaded: false, files: Seq::empty() }
}

/// Discovered keys folded into a record list, in order: a key already
/// present is left alone, a fresh one is appended with an empty record.
pub open spec fn merge_new(recs: Seq<(int, RecModel)>, found: Seq<int>) -> Seq<(int, RecModel)>
    decreases found.len(),
{
    if found.len() == 0 {
        recs
    } else {
        merge_new(
            if spec_contains_key(recs, found[0]) {
                recs
            } else {
                recs.push((found[0], empty_rec()))
            },
            found.drop_first(),
        )
    }
}

/// What merging discovered keys does: records already present are
/// never overwritten, fresh keys are appended as empty records, and
/// the key set grows by exactly the discovered keys.
pub proof fn lemma_merge_props(recs: Seq<(int, RecModel)>, found: Seq<int>)
    ensures
        merge_new(recs, found).len() >= recs.len(),
        forall|i: int| 0 <= i < recs.len() ==> merge_new(recs, found)[i] == recs[i],
        forall|i: int|
            recs.len() <= i < merge_new(recs, found).len() ==> (#[trigger] merge_new(recs, found)[i]).1
                == empty_rec() && !spec_contains_key(recs, merge_new(recs, found)[i].0)
                && found.contains(merge_new(recs, found)[i].0),
        forall|k: int|
            spec_contains_key(merge_new(recs, found), k) <==> (spec_contains_key(recs, k)
                || found.contains(k)),
        keys_unique(recs) ==> keys_unique(merge_new(recs, found)),
    decreases found.len(),
{
    if found.len() > 0 {
        let k0 = found[0];
        let step = if spec_contains_key(recs, k0) {
            recs
        } else {
            recs.push((k0, empty_rec()))
        };
        let drop = found.drop_first();
        lemma_merge_props(step, drop);
        let merged = merge_new(recs, found);
        assert(merged == merge_new(step, drop));
        assert forall|i: int| 0 <= i < recs.len() implies merged[i] == recs[i] by {
            assert(merged[i] == step[i]);
            if !spec_contains_key(recs, k0) {
                assert(step[i] == recs[i]);
            }
        }
        // How `step` relates to `recs`.
        assert(spec_contains_key(step, k0)) by {
            if !spec_contains_key(recs, k0) {
                assert(step[recs.len() as int].0 == k0);
            }
        }
        assert forall|k: int| spec_contains_key(step, k) <==> (spec_contains_key(recs, k) || k
            == k0) by {
            if spec_contains_key(step, k) && !spec_contains_key(recs, k) {
                let i = choose|i: int| 0 <= i < step.len() && (#[trigger] step[i]).0 == k;
                if !spec_contains_key(recs, k0) && i < recs.len() {
                    assert(step[i] == recs[i]);
                }
            }
            if spec_contains_key(recs, k) {
                let i = choose|i: int| 0 <= i < recs.len() && (#[trigger] recs[i]).0 == k;
                if !spec_contains_key(recs, k0) {
                    assert(step[i] == recs[i]);
                }
                assert(step[i].0 == k);
            }
        }
        assert forall|k: int| found.contains(k) <==> (k == k0 || drop.contains(k)) by {
            if found.contains(k) {
                let i = choose|i: int| 0 <= i < found.len() && found[i] == k;
                if i > 0 {
                    assert(drop[i - 1] == found[i]);
                }
            }
            if drop.contains(k) {
                let i = choose|i: int| 0 <= i < drop.len() && drop[i] == k;
                assert(found[i + 1] == drop[i]);
            }
            assert(found[0] == k0);
        }
        // Uniqueness of `step` from uniqueness of `recs`.
        if keys_unique(recs) {
            assert forall|a: int, b: int| 0 <= a < b < step.len() implies (#[trigger] step[a]).0
                != (#[trigger] step[b]).0 by {
                if b < recs.len() {
                    assert(step[a] == recs[a]);
                    assert(step[b] == recs[b]);
                } else if !spec_contains_key(recs, k0) {
                    assert(step[a] == recs[a]);
                    assert(step[b].0 == k0);
                    if recs[a].0 == k0 {
                        assert(spec_contains_key(recs, k0));
                    }
                }
            }
        }
        // The appended range of `merged`.
        assert forall|i: int| recs.len() <= i < merged.len() implies (#[trigger] merged[i]).1
            == empty_rec() && !spec_contains_key(recs, merged[i].0) && found.contains(
            merged[i].0,
        ) by {
            if i < step.len() {
                assert(step[i].0 == k0 && step[i].1 == empty_rec());
                assert(merged[i] == step[i]);
            } else {
                assert(!spec_contains_key(step, merged[i].0));
            }
        }
    }
}

/// A discovery pass that reports only partitions already on record
/// leaves the records exactly as they are.
pub proof fn lemma_merge_nothing_new(recs: Seq<(int, RecModel)>, found: Seq<int>)
    requires
        forall|i: int| 0 <= i < found.len() ==> spec_contains_key(recs, #[trigger] found[i]),
    ensures
        merge_new(recs, found) == recs,
    decreases found.len(),
{
    if found.len() > 0 {
        assert(spec_contains_key(recs, found[0]));
        assert forall|i: int| 0 <= i < found.drop_first().len() implies spec_contains_key(
            recs,
            #[trigger] found.drop_first()[i],
        ) by {
            assert(found.drop_first()[i] == found[i + 1]);
        }
        lemma_merge_nothing_new(recs, found.drop_first());
    }
}

/// The driver of the whole sync: it owns the catalog and the run
/// options, and exposes one verified transition per phase.
pub struct DateFilesFetcher {
    /// The persisted sync state.
    pub catalog: Catalog,
    /// When set, partitions already marked downloaded are reconsidered
    /// by the refresh and download phases (repair runs).
    pub ignore_undownloaded: bool,
    /// Which remote data set is mirrored.
    pub data_type: DataType,
    /// The current calendar day, as a partition key.
    pub today: u32,
}

/// The engine's own invariant: a well-formed catalog and a real date.
pub open spec fn eng_wf(e: &DateFilesFetcher) -> bool {
    cat_wf(e.catalog@) && valid_date_key(e.today as int)
}

impl DateFilesFetcher {
    /// Builds the engine around a loaded catalog, or around an empty
    /// one where no usable catalog was persisted.
    pub fn new(data_type: DataType, today: u32, loaded: Option<Catalog>) -> (r: DateFilesFetcher)
        requires
            valid_date_key(today as int),
            match loaded {
                Some(c) => cat_wf(c@),
                None => true,
            },
        ensures
            eng_wf(&r),
            r.today == today,
            r.data_type == data_type,
            !r.ignore_undownloaded,
            match loaded {
                Some(c) => r.catalog@ == c@,
                None => r.catalog@.watermark is None && r.catalog@.recs.len() == 0,
            },
    {
        let catalog = match loaded {
            Some(c) => c,
            None => Catalog::empty(),
        };
        DateFilesFetcher { catalog, ignore_undownloaded: false, data_type, today }
    }

    /// Number of known partitions.
    pub fn get_records_num(&self) -> (n: usize)
        ensures
            n == self.catalog@.recs.len(),
    {
        self.catalog.len()
    }

    /// Switches the engine into repair mode: partitions already marked
    /// downloaded are reconsidered.
    pub fn set_ignore_undownloaded(&mut self)
        ensures
            final(self).ignore_undownloaded,
            final(self).catalog == old(self).catalog,
            final(self).data_type == old(self).data_type,
            final(self).today == old(self).today,
    {
        self.ignore_undownloaded = true;
    }

    /// Whether a discovery pass is due: the persisted watermark is
    /// absent or does not name the current day.
    pub fn needs_discovery(&self) -> (r: bool)
        ensures
            r == (self.catalog@.watermark != Some(self.today as int)),
    {
        match self.catalog.watermark {
            Some(w) => w != self.today,
            None => true,
        }
    }

    /// Folds a finished discovery pass into the catalog: fresh keys
    /// are appended as empty records, records already present are
    /// never overwritten, and the watermark advances to the current
    /// day.
    pub fn apply_discovery(&mut self, found: &Vec<u32>)
        requires
            eng_wf(old(self)),
            forall|i: int| 0 <= i < found@.len() ==> valid_date_key((#[trigger] found@[i]) as int),
        ensures
            eng_wf(final(self)),
            final(self).catalog@.recs == merge_new(
                old(self).catalog@.recs,
                found@.map_values(|k: u32| k as int),
            ),
            final(self).catalog@.watermark == Some(final(self).today as int),
            forall|i: int|
                0 <= i < old(self).catalog@.recs.len() ==> final(self).catalog@.recs[i] == old(
                    self,
                ).catalog@.recs[i],
            forall|k: int|
                spec_contains_key(final(self).catalog@.recs, k) <==> (spec_contains_key(
                    old(self).catalog@.recs,
                    k,
                ) || found@.map_values(|k2: u32| k2 as int).contains(k)),
            final(self).ignore_undownloaded == old(self).ignore_undownloaded,
            final(self).data_type == old(self).data_type,
            final(self).today == old(self).today,
    {
        let ghost recs0 = self.catalog@.recs;
        let ghost fm = found@.map_values(|k: u32| k as int);
        let n = found.len();
        let mut i: usize = 0;
        proof {
            assert(fm.subrange(0, fm.len() as int) =~= fm);
        }
        while i < n
            invariant
                i <= n,
                n == found@.len(),
                fm == found@.map_values(|k: u32| k as int),
                forall|q: int| 0 <= q < n ==> valid_date_key((#[trigger] found@[q]) as int),
                merge_new(recs0, fm) == merge_new(
                    self.catalog@.recs,
                    fm.subrange(i as int, fm.len() as int),
                ),
                self.catalog.watermark == old(self).catalog.watermark,
                self.ignore_undownloaded == old(self).ignore_undownloaded,
                self.data_type == old(self).data_type,
                self.today == old(self).today,
            decreases n - i,
        {
            let ghost cur = self.catalog@.recs;
            let ghost rest = fm.subrange(i as int, fm.len() as int);
            proof {
                assert(rest.len() > 0);
                assert(rest[0] == fm[i as int]);
                assert(fm[i as int] == found@[i as int] as int);
                assert(rest.drop_first() =~= fm.subrange(i + 1, fm.len() as int));
            }
            let k = found[i];
            if !self.catalog.contains_key(k) {
                self.catalog.records.push(
                    (k, DateRecord { downloaded: false, files: Vec::new() }),
                );
                proof {
                    assert(self.catalog@.recs =~~= cur.push((k as int, empty_rec())));
                }
            }
            i += 1;
        }
        proof {
            assert(fm.subrange(n as int, fm.len() as int).len() == 0);
            assert(merge_new(recs0, fm) == self.catalog@.recs);
        }
        self.catalog.watermark = Some(self.today);
        proof {
            lemma_merge_props(recs0, fm);
            assert forall|q: int| 0 <= q < fm.len() implies valid_date_key(#[trigger] fm[q]) by {
                assert(fm[q] == found@[q] as int);
            }
            assert forall|i2: int|
                0 <= i2 < self.catalog@.recs.len() implies valid_date_key(
                (#[trigger] self.catalog@.recs[i2]).0,
            ) && rec_wf(self.catalog@.recs[i2].1) by {
                if i2 >= recs0.len() {
                    let kk = self.catalog@.recs[i2].0;
                    assert(fm.contains(kk));
                    let q = choose|q: int| 0 <= q < fm.len() && fm[q] == kk;
                    assert(valid_date_key(fm[q]));
                    assert(self.catalog@.recs[i2].1 == empty_rec());
                    assert(rec_wf(empty_rec()));
                } else {
                    assert(self.catalog@.recs[i2] == recs0[i2]);
                }
            }
        }
    }

    /// Folds fetched file listings into the catalog: a record whose
    /// `files` list is empty takes the listing fetched for its key; a
    /// record that already knows its files is left untouched (the
    /// listing phase is a no-op for it).  Returns how many partitions
    /// still await a download pass (not downloaded, or all of them in
    /// repair mode).
    pub fn update_file_lists(&mut self, listings: &Vec<(u32, Vec<FileRecord>)>) -> (count: usize)
        requires
            eng_wf(old(self)),
            forall|i: int, j: int|
                0 <= i < listings@.len() && 0 <= j < (#[trigger] listings@[i]).1@.len()
                    ==> valid_name((#[trigger] listings@[i].1@[j])@),
            forall|i: int, j: int|
                0 <= i < j < listings@.len() ==> (#[trigger] listings@[i]).0 != (
                #[trigger] listings@[j]).0,
        ensures
            eng_wf(final(self)),
            final(self).catalog@.recs.len() == old(self).catalog@.recs.len(),
            final(self).catalog@.watermark == old(self).catalog@.watermark,
            forall|i: int|
                0 <= i < old(self).catalog@.recs.len()
                    ==> (#[trigger] final(self).catalog@.recs[i]).0 == old(self).catalog@.recs[i].0
                    && final(self).catalog@.recs[i].1.downloaded
                    == old(self).catalog@.recs[i].1.downloaded,
            forall|i: int|
                0 <= i < old(self).catalog@.recs.len()
                    && (#[trigger] old(self).catalog@.recs[i]).1.files.len() > 0
                    ==> final(self).catalog@.recs[i].1.files == old(self).catalog@.recs[i].1.files,
            forall|i: int, j: int|
                0 <= i < old(self).catalog@.recs.len()
                    && (#[trigger] old(self).catalog@.recs[i]).1.files.len() == 0
                    && 0 <= j < listings@.len()
                    && (#[trigger] listings@[j]).0 as int == old(self).catalog@.recs[i].0
                    ==> final(self).catalog@.recs[i].1.files
                    == listings@[j].1@.map_values(|f: FileRecord| f@),
            forall|i: int|
                0 <= i < old(self).catalog@.recs.len()
                    && (#[trigger] old(self).catalog@.recs[i]).1.files.len() == 0
                    && !(exists|j: int|
                        0 <= j < listings@.len()
                        && (#[trigger] listings@[j]).0 as int == old(self).catalog@.recs[i].0)
                    ==> final(self).catalog@.recs[i].1.files == old(self).catalog@.recs[i].1.files,
            count as int == count_pending(final(self).catalog@.recs, final(self).ignore_undownloaded),
            final(self).ignore_undownloaded == old(self).ignore_undownloaded,
            final(self).data_type == old(self).data_type,
            final(self).today == old(self).today,
    {
        let ghost recs0 = self.catalog@.recs;
        let n = self.catalog.records.len();
        let mut updated: Vec<(u32, DateRecord)> = Vec::new();
        let mut i: usize = 0;
        while i < n
            invariant
                i <= n,
                n == self.catalog.records@.len(),
                recs0 == self.catalog@.recs,
                cat_wf(self.catalog@),
                forall|q: int, j: int|
                    0 <= q < listings@.len() && 0 <= j < (#[trigger] listings@[q]).1@.len()
                        ==> valid_name((#[trigger] listings@[q].1@[j])@),
                forall|a: int, b: int|
                    0 <= a < b < listings@.len() ==> (#[trigger] listings@[a]).0 != (
                    #[trigger] listings@[b]).0,
                updated@.len() == i,
                forall|q: int|
                    0 <= q < i ==> (#[trigger] updated@[q]).0 == self.catalog.records@[q].0 && (
                    updated@[q].1@.downloaded == recs0[q].1.downloaded),
                forall|q: int|
                    0 <= q < i && (#[trigger] recs0[q]).1.files.len() > 0 ==> updated@[q].1@.files
                        == recs0[q].1.files,
                forall|q: int, j: int|
                    0 <= q < i && (#[trigger] recs0[q]).1.files.len() == 0 && 0 <= j
                        < listings@.len() && (#[trigger] listings@[j]).0 as int == recs0[q].0
                        ==> updated@[q].1@.files == listings@[j].1@.map_values(
                        |f: FileRecord| f@,
                    ),
                forall|q: int|
                    0 <= q < i && (#[trigger] recs0[q]).1.files.len() == 0 && !(exists|j: int|
                        0 <= j < listings@.len() && (#[trigger] listings@[j]).0 as int
                            == recs0[q].0) ==> updated@[q].1@.files == recs0[q].1.files,
                forall|q: int|
                    0 <= q < i ==> rec_wf((#[trigger] updated@[q]).1@),
            decreases n - i,
        {
            let key = self.catalog.records[i].0;
            proof {
                assert((#[trigger] recs0[i as int]).0 == key as int);
                assert(rec_wf(recs0[i as int].1));
            }
            let files: Vec<FileRecord>;
            if self.catalog.records[i].1.files.len() == 0 {
                let mut j: usize = 0;
                let ln = listings.len();
                let mut found: Option<usize> = None;
                while j < ln && found.is_none()
                    invariant
                        j <= ln,
                        ln == listings@.len(),
                        match found {
                            Some(fj) => fj < ln && listings@[fj as int].0 == key,
                            None => forall|q: int|
                                0 <= q < j ==> (#[trigger] listings@[q]).0 != key,
                        },
                    decreases ln - j,
                {
                    if listings[j].0 == key {
                        found = Some(j);
                    }
                    j += 1;
                }
                match found {
                    Some(fj) => {
                        files = clone_files(&listings[fj].1);
                        proof {
                            assert forall|j2: int|
                                0 <= j2 < listings@.len() && (#[trigger] listings@[j2]).0 as int
                                    == key as int implies files@.map_values(|f: FileRecord| f@)
                                == listings@[j2].1@.map_values(|f: FileRecord| f@) by {
                                if j2 != fj as int {
                                    assert(listings@[fj as int].0 != listings@[j2].0);
                                }
                            }
                            let fview = files@.map_values(|f: FileRecord| f@);
                            assert(rec_wf(
                                RecModel {
                                    downloaded: recs0[i as int].1.downloaded,
                                    files: fview,
                                },
                            )) by {
                                assert forall|j2: int| 0 <= j2 < fview.len() implies valid_name(
                                    #[trigger] fview[j2],
                                ) by {
                                    assert(fview[j2] == listings@[fj as int].1@.map_values(
                                        |f: FileRecord| f@,
                                    )[j2]);
                                    assert(listings@[fj as int].1@.map_values(|f: FileRecord| f@)[
                                    j2] == (listings@[fj as int].1@[j2])@);
                                }
                            }
                        }
                    },
                    None => {
                        files = Vec::new();
                        proof {
                            assert(files@.map_values(|f: FileRecord| f@) =~= recs0[i as int].1.files);
                        }
                    },
                }
            } else {
                files = clone_files(&self.catalog.records[i].1.files);
                proof {
                    assert(files@.map_values(|f: FileRecord| f@) == recs0[i as int].1.files);
                }
            }
            let rec = DateRecord { downloaded: self.catalog.records[i].1.downloaded, files };
            updated.push((key, rec));
            i += 1;
        }
        self.catalog.records = updated;
        let total = self.count_pending_records();
        proof {
            assert forall|q: int|
                0 <= q < self.catalog@.recs.len() implies valid_date_key(
                (#[trigger] self.catalog@.recs[q]).0,
            ) && rec_wf(self.catalog@.recs[q].1) by {
                assert(self.catalog@.recs[q].0 == recs0[q].0);
            }
            assert(keys_unique(self.catalog@.recs)) by {
                assert forall|a: int, b: int|
                    0 <= a < b < self.catalog@.recs.len() implies (
                #[trigger] self.catalog@.recs[a]).0 != (#[trigger] self.catalog@.recs[b]).0 by {
                    assert(self.catalog@.recs[a].0 == recs0[a].0);
                    assert(self.catalog@.recs[b].0 == recs0[b].0);
                }
            }
        }
        total
    }

    /// Counts the partitions a download pass would consider: those not
    /// yet downloaded, or all of them in repair mode.
    fn count_pending_records(&self) -> (count: usize)
        ensures
            count as int == count_pending(self.catalog@.recs, self.ignore_undownloaded),
    {
        let n = self.catalog.records.len();
        let mut count: usize = 0;
        let mut i: usize = 0;
        proof {
            assert(self.catalog@.recs.subrange(0, 0) =~= Seq::<(int, RecModel)>::empty());
        }
        while i < n
            invariant
                i <= n,
                n == self.catalog.records@.len(),
                count <= i,
                count as int == count_pending(
                    self.catalog@.recs.subrange(0, i as int),
                    self.ignore_undownloaded,
                ),
            decreases n - i,
        {
            proof {
                let pre = self.catalog@.recs.subrange(0, i as int);
                let ext = self.catalog@.recs.subrange(0, i + 1);
                assert(ext.drop_last() =~= pre);
                assert(ext.last() == self.catalog@.recs[i as int]);
            }
            if !self.catalog.records[i].1.downloaded || self.ignore_undownloaded {
                count += 1;
            }
            i += 1;
        }
        proof {
            assert(self.catalog@.recs.subrange(0, n as int) =~= self.catalog@.recs);
        }
        count
    }
}

/// Whether a download pass considers this partition: not yet
/// downloaded (or repair mode), and its file listing already fetched.
pub open spec fn eligible(r: RecModel, ignore: bool) -> bool {
    (!r.downloaded || ignore) && r.files.len() > 0
}

/// One file of a download plan: its name and the filter's verdict.
pub struct TaskItem {
    pub file_name: String,
    pub wanted: bool,
}

/// The download plan for one partition, aligned with its record.
pub struct RecordPlan {
    pub key: u32,
    pub eligible: bool,
    pub items: Vec<TaskItem>,
}

/// Whether the scheduler fetches a file: the filter wants it and no
/// copy already sits at the destination.
pub open spec fn spec_should_fetch(wanted: bool, present: bool) -> bool {
    wanted && !present
}

/// Whether a file counts as satisfied after the pass: filtered out,
/// already present, or fetched with success.
pub open spec fn file_done(wanted: bool, present: bool, fetched_ok: bool) -> bool {
    !wanted || present || fetched_ok
}

/// Decides whether one planned file is fetched.
pub fn should_fetch(item: &TaskItem, present: bool) -> (r: bool)
    ensures
        r == spec_should_fetch(item.wanted, present),
{
    item.wanted && !present
}

/// A file already at its destination is never fetched and still
/// counts as satisfied, whatever the transfer outcomes were.
pub proof fn lemma_existing_file_skipped(wanted: bool, present: bool, fetched_ok: bool)
    requires
        present,
    ensures
        !spec_should_fetch(wanted, present),
        file_done(wanted, present, fetched_ok),
{
}

/// Re-running Bootstrap right after a completed one changes nothing:
/// the persisted text parses back to the very same catalog, and its
/// watermark already names the current day, so no discovery pass runs
/// and watermark and records stay as they are.
pub proof fn lemma_resync_idempotent(e: &DateFilesFetcher)
    requires
        eng_wf(e),
        e.catalog@.watermark == Some(e.today as int),
    ensures
        crate::codec::spec_parse(crate::codec::cat_text(e.catalog@)) == Some(e.catalog@),
        e.catalog@.watermark == Some(e.today as int),
{
    crate::codec::lemma_parse_complete(e.catalog@);
}

impl DateFilesFetcher {
    /// Lays out the download work: one plan per record, carrying every
    /// file name with the filter's verdict, and whether the record is
    /// considered at all.
    pub fn download_plan(&self, filter: &NameFilter) -> (plan: Vec<RecordPlan>)
        ensures
            plan@.len() == self.catalog@.recs.len(),
            forall|i: int|
                0 <= i < plan@.len() ==> {
                    &&& (#[trigger] plan@[i]).key as int == self.catalog@.recs[i].0
                    &&& plan@[i].eligible == eligible(
                        self.catalog@.recs[i].1,
                        self.ignore_undownloaded,
                    )
                    &&& plan@[i].items@.len() == self.catalog@.recs[i].1.files.len()
                },
            forall|i: int, j: int|
                0 <= i < plan@.len() && 0 <= j < (#[trigger] plan@[i]).items@.len() ==> (
                #[trigger] plan@[i].items@[j]).file_name@ == self.catalog@.recs[i].1.files[j]
                    && plan@[i].items@[j].wanted == spec_accepts(
                    filter,
                    self.catalog@.recs[i].1.files[j],
                ),
    {
        let n = self.catalog.records.len();
        let mut plan: Vec<RecordPlan> = Vec::new();
        let mut i: usize = 0;
        while i < n
            invariant
                i <= n,
                n == self.catalog.records@.len(),
                plan@.len() == i,
                forall|q: int|
                    0 <= q < i ==> {
                        &&& (#[trigger] plan@[q]).key as int == self.catalog@.recs[q].0
                        &&& plan@[q].eligible == eligible(
                            self.catalog@.recs[q].1,
                            self.ignore_undownloaded,
                        )
                        &&& plan@[q].items@.len() == self.catalog@.recs[q].1.files.len()
                    },
                forall|q: int, j: int|
                    0 <= q < i && 0 <= j < (#[trigger] plan@[q]).items@.len() ==> (
                    #[trigger] plan@[q].items@[j]).file_name@ == self.catalog@.recs[q].1.files[j]
                        && plan@[q].items@[j].wanted == spec_accepts(
                        filter,
                        self.catalog@.recs[q].1.files[j],
                    ),
            decreases n - i,
        {
            let key = self.catalog.records[i].0;
            let rec = &self.catalog.records[i].1;
            let elig = (!rec.downloaded || self.ignore_undownloaded) && rec.files.len() > 0;
            let m = rec.files.len();
            let mut items: Vec<TaskItem> = Vec::new();
            let mut j: usize = 0;
            while j < m
                invariant
                    j <= m,
                    m == rec.files@.len(),
                    rec == &self.catalog.records@[i as int].1,
                    i < self.catalog.records@.len(),
                    items@.len() == j,
                    forall|q: int|
                        0 <= q < j ==> (#[trigger] items@[q]).file_name@ == rec.files@[q]@
                            && items@[q].wanted == spec_accepts(filter, rec.files@[q]@),
                decreases m - j,
            {
                let name = rec.files[j].file_name.clone();
                let wanted = filter.accepts(name.as_str());
                items.push(TaskItem { file_name: name, wanted });
                j += 1;
            }
            plan.push(RecordPlan { key, eligible: elig, items });
            proof {
                assert((#[trigger] self.catalog@.recs[i as int]).0 == key as int);
                assert forall|j2: int| 0 <= j2 < m implies self.catalog@.recs[i as int].1.files[j2]
                    == rec.files@[j2]@ by {}
            }
            i += 1;
        }
        plan
    }

    /// Records the outcome of one download pass.
    ///
    /// `present[i][j]` says a copy of file `j` of record `i` already
    /// sat at its destination before the pass; `ok[i][j]` says its
    /// fetch completed.  A considered partition ends up marked
    /// downloaded exactly when every one of its files is either
    /// filtered out, already present, or fetched with success; records
    /// the pass did not consider keep their flag, and no file list or
    /// key changes.
    pub fn apply_download_results(
        &mut self,
        filter: &NameFilter,
        present: &Vec<Vec<bool>>,
        ok: &Vec<Vec<bool>>,
    )
        requires
            eng_wf(old(self)),
            present@.len() == old(self).catalog@.recs.len(),
            ok@.len() == old(self).catalog@.recs.len(),
            forall|i: int|
                0 <= i < old(self).catalog@.recs.len()
                    ==> (#[trigger] present@[i])@.len() == old(self).catalog@.recs[i].1.files.len(),
            forall|i: int|
                0 <= i < old(self).catalog@.recs.len()
                    ==> (#[trigger] ok@[i])@.len() == old(self).catalog@.recs[i].1.files.len(),
        ensures
            eng_wf(final(self)),
            final(self).catalog@.recs.len() == old(self).catalog@.recs.len(),
            final(self).catalog@.watermark == old(self).catalog@.watermark,
            forall|i: int|
                0 <= i < old(self).catalog@.recs.len()
                    ==> (#[trigger] final(self).catalog@.recs[i]).0 == old(self).catalog@.recs[i].0
                    && final(self).catalog@.recs[i].1.files == old(self).catalog@.recs[i].1.files,
            forall|i: int|
                0 <= i < old(self).catalog@.recs.len() && eligible(
                    (#[trigger] old(self).catalog@.recs[i]).1,
                    old(self).ignore_undownloaded,
                ) ==> (final(self).catalog@.recs[i].1.downloaded <==> (forall|j: int|
                    0 <= j < old(self).catalog@.recs[i].1.files.len() ==> file_done(
                        spec_accepts(filter, #[trigger] old(self).catalog@.recs[i].1.files[j]),
                        present@[i]@[j],
                        ok@[i]@[j],
                    ))),
            forall|i: int|
                0 <= i < old(self).catalog@.recs.len() && !eligible(
                    (#[trigger] old(self).catalog@.recs[i]).1,
                    old(self).ignore_undownloaded,
                ) ==> final(self).catalog@.recs[i].1.downloaded
                    == old(self).catalog@.recs[i].1.downloaded,
            final(self).ignore_undownloaded == old(self).ignore_undownloaded,
            final(self).data_type == old(self).data_type,
            final(self).today == old(self).today,
    {
        let ghost recs0 = self.catalog@.recs;
        let n = self.catalog.records.len();
        proof {
            assert forall|q: int| 0 <= q < n implies (#[trigger] present@[q])@.len()
                == recs0[q].1.files.len() by {
                assert(recs0[q] == old(self).catalog@.recs[q]);
            }
            assert forall|q: int| 0 <= q < n implies (#[trigger] ok@[q])@.len()
                == recs0[q].1.files.len() by {
                assert(recs0[q] == old(self).catalog@.recs[q]);
            }
        }
        let mut updated: Vec<(u32, DateRecord)> = Vec::new();
        let mut i: usize = 0;
        while i < n
            invariant
                i <= n,
                n == self.catalog.records@.len(),
                recs0 == self.catalog@.recs,
                cat_wf(self.catalog@),
                present@.len() == n,
                ok@.len() == n,
                forall|q: int|
                    0 <= q < n ==> (#[trigger] present@[q])@.len() == recs0[q].1.files.len(),
                forall|q: int| 0 <= q < n ==> (#[trigger] ok@[q])@.len() == recs0[q].1.files.len(),
                updated@.len() == i,
                forall|q: int|
                    0 <= q < i ==> (#[trigger] updated@[q]).0 == self.catalog.records@[q].0
                        && updated@[q].1@.files == recs0[q].1.files,
                forall|q: int|
                    0 <= q < i && eligible(#[trigger] recs0[q].1, self.ignore_undownloaded) ==> (
                    updated@[q].1@.downloaded <==> (forall|j: int|
                        0 <= j < recs0[q].1.files.len() ==> file_done(
                            spec_accepts(filter, #[trigger] recs0[q].1.files[j]),
                            present@[q]@[j],
                            ok@[q]@[j],
                        ))),
                forall|q: int|
                    0 <= q < i && !eligible(#[trigger] recs0[q].1, self.ignore_undownloaded)
                        ==> updated@[q].1@.downloaded == recs0[q].1.downloaded,
            decreases n - i,
        {
            let key = self.catalog.records[i].0;
            let rec = &self.catalog.records[i].1;
            let elig = (!rec.downloaded || self.ignore_undownloaded) && rec.files.len() > 0;
            let files = clone_files(&rec.files);
            let downloaded: bool;
            if elig {
                let m = rec.files.len();
                proof {
                    assert(recs0[i as int].1 == rec@);
                    assert(recs0[i as int].1.files.len() == rec.files@.len());
                }
                let mut all_done = true;
                let mut j: usize = 0;
                while j < m
                    invariant
                        j <= m,
                        m == rec.files@.len(),
                        rec == &self.catalog.records@[i as int].1,
                        i < n,
                        n == self.catalog.records@.len(),
                        recs0 == self.catalog@.recs,
                        present@.len() == n,
                        ok@.len() == n,
                        present@[i as int]@.len() == m,
                        ok@[i as int]@.len() == m,
                        all_done == (forall|q: int|
                            0 <= q < j ==> file_done(
                                spec_accepts(filter, #[trigger] recs0[i as int].1.files[q]),
                                present@[i as int]@[q],
                                ok@[i as int]@[q],
                            )),
                    decreases m - j,
                {
                    let wanted = filter.accepts(rec.files[j].file_name.as_str());
                    proof {
                        assert(recs0[i as int].1.files[j as int] == rec.files@[j as int]@);
                    }
                    if wanted && !present[i][j] && !ok[i][j] {
                        all_done = false;
                        proof {
                            assert(!file_done(
                                spec_accepts(filter, recs0[i as int].1.files[j as int]),
                                present@[i as int]@[j as int],
                                ok@[i as int]@[j as int],
                            ));
                        }
                    } else {
                        proof {
                            assert(file_done(
                                spec_accepts(filter, recs0[i as int].1.files[j as int]),
                                present@[i as int]@[j as int],
                                ok@[i as int]@[j as int],
                            ));
                        }
                    }
                    j += 1;
                }
                downloaded = all_done;
            } else {
                downloaded = rec.downloaded;
            }
            updated.push((key, DateRecord { downloaded, files }));
            proof {
                assert((#[trigger] recs0[i as int]).0 == key as int);
                assert(updated@[i as int].1@.files =~= recs0[i as int].1.files) by {
                    assert(updated@[i as int].1@.files == updated@[i as int].1.files@.map_values(
                        |f: FileRecord| f@,
                    ));
                }
            }
            i += 1;
        }
        self.catalog.records = updated;
        proof {
            assert forall|q: int|
                0 <= q < self.catalog@.recs.len() implies valid_date_key(
                (#[trigger] self.catalog@.recs[q]).0,
            ) && rec_wf(self.catalog@.recs[q].1) by {
                assert(self.catalog@.recs[q].0 == recs0[q].0);
                assert(self.catalog@.recs[q].1.files == recs0[q].1.files);
            }
            assert(keys_unique(self.catalog@.recs)) by {
                assert forall|a: int, b: int|
                    0 <= a < b < self.catalog@.recs.len() implies (
                #[trigger] self.catalog@.recs[a]).0 != (#[trigger] self.catalog@.recs[b]).0 by {
                    assert(self.catalog@.recs[a].0 == recs0[a].0);
                    assert(self.catalog@.recs[b].0 == recs0[b].0);
                }
            }
        }
    }

    /// The remote address a file of a partition is fetched from.
    pub fn build_file_download_url(&self, date: u32, file_name: &str) -> (url: String)
        requires
            date < 100000000,
        ensures
            url@ == "https://static.okx.com/cdn/okex/traderecords/"@ + self.data_type.as_str_view()
                + "/daily/"@ + crate::codec::key_text(date as int) + "/"@ + file_name@,
    {
        let mut url = String::new();
        url.append("https://static.okx.com/cdn/okex/traderecords/");
        url.append(self.data_type.as_str());
        url.append("/daily/");
        crate::codec::push_key(&mut url, date);
        url.append("/");
        url.append(file_name);
        url
    }

    /// The local path a file of a partition is saved at.
    pub fn build_file_save_path(&self, date: u32, file_name: &str) -> (path: String)
        requires
            date < 100000000,
        ensures
            path@ == "./data/"@ + self.data_type.as_str_view() + "/"@ + crate::codec::key_text(
                date as int,
            ) + "/"@ + file_name@,
    {
        let mut path = String::new();
        path.append("./data/");
        path.append(self.data_type.as_str());
        path.append("/");
        crate::codec::push_key(&mut path, date);
        path.append("/");
        path.append(file_name);
        path
    }
}

/// Checks that every key of a discovery result is a real date, as
/// `apply_discovery` requires.
pub fn keys_all_valid(keys: &Vec<u32>) -> (r: bool)
    ensures
        r == forall|i: int| 0 <= i < keys@.len() ==> valid_date_key((#[trigger] keys@[i]) as int),
{
    let n = keys.len();
    let mut i: usize = 0;
    while i < n
        invariant
            i <= n,
            n == keys@.len(),
            forall|j: int| 0 <= j < i ==> valid_date_key((#[trigger] keys@[j]) as int),
        decreases n - i,
    {
        if !check_date_key(keys[i]) {
            return false;
        }
        i += 1;
    }
    true
}

/// Checks that every name of every listing is one the catalog can
/// carry, as `update_file_lists` requires.
pub fn listings_names_ok(listings: &Vec<(u32, Vec<FileRecord>)>) -> (r: bool)
    ensures
        r == (forall|i: int, j: int|
            0 <= i < listings@.len() && 0 <= j < (#[trigger] listings@[i]).1@.len() ==> valid_name(
                (#[trigger] listings@[i].1@[j])@,
            )),
{
    let n = listings.len();
    let mut i: usize = 0;
    while i < n
        invariant
            i <= n,
            n == listings@.len(),
            forall|a: int, j: int|
                0 <= a < i && 0 <= j < (#[trigger] listings@[a]).1@.len() ==> valid_name(
                    (#[trigger] listings@[a].1@[j])@,
                ),
        decreases n - i,
    {
        let m = listings[i].1.len();
        let mut j: usize = 0;
        while j < m
            invariant
                j <= m,
                i < n,
                n == listings@.len(),
                m == listings@[i as int].1@.len(),
                forall|b: int|
                    0 <= b < j ==> valid_name((#[trigger] listings@[i as int].1@[b])@),
            decreases m - j,
        {
            if !crate::catalog::check_name(listings[i].1[j].file_name.as_str()) {
                return false;
            }
            j += 1;
        }
        i += 1;
    }
    true
}

/// Checks that no two listings share a key, as `update_file_lists`
/// requires.
pub fn listings_keys_unique(listings: &Vec<(u32, Vec<FileRecord>)>) -> (r: bool)
    ensures
        r == (forall|i: int, j: int|
            0 <= i < j < listings@.len() ==> (#[trigger] listings@[i]).0 != (
            #[trigger] listings@[j]).0),
{
    let n = listings.len();
    let mut i: usize = 0;
    while i < n
        invariant
            i <= n,
            n == listings@.len(),
            forall|a: int, b: int|
                0 <= a < b < i ==> (#[trigger] listings@[a]).0 != (#[trigger] listings@[b]).0,
        decreases n - i,
    {
        let key = listings[i].0;
        let mut q: usize = 0;
        while q < i
            invariant
                q <= i,
                i < n,
                n == listings@.len(),
                key == listings@[i as int].0,
                forall|a: int|
                    0 <= a < q ==> (#[trigger] listings@[a]).0 != listings@[i as int].0,
            decreases i - q,
        {
            if listings[q].0 == key {
                return false;
            }
            q += 1;
        }
        i += 1;
    }
    true
}

/// How many records a download pass would consider.
pub open spec fn count_pending(recs: Seq<(int, RecModel)>, ignore: bool) -> int
    decreases recs.len(),
{
    if recs.len() == 0 {
        0
    } else {
        count_pending(recs.drop_last(), ignore) + if (!recs.last().1.downloaded || ignore) {
            1int
        } else {
            0int
        }
    }
}

/// Copies a file list, name for name.
fn clone_files(files: &Vec<FileRecord>) -> (r: Vec<FileRecord>)
    ensures
        r@.map_values(|f: FileRecord| f@) == files@.map_values(|f: FileRecord| f@),
{
    let mut r: Vec<FileRecord> = Vec::new();
    let n = files.len();
    let mut i: usize = 0;
    while i < n
        invariant
            i <= n,
            n == files@.len(),
            r@.len() == i,
            forall|j: int| 0 <= j < i ==> (#[trigger] r@[j])@ == files@[j]@,
        decreases n - i,
    {
        r.push(files[i].clone());
        i += 1;
    }
    proof {
        assert(r@.map_values(|f: FileRecord| f@) =~= files@.map_values(|f: FileRecord| f@));
    }
    r
}

} // verus!
