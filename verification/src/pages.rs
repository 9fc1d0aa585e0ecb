//! The two paginated walks over the remote listing: partition discovery
//! and per-partition file listing.
//!
//! The remote service is driven from outside; this module holds the
//! state of each walk and the verified step that folds one fetched page
//! into it.  Discovery stops at the watermark boundary and always skips
//! the current day; the file-listing walk drains every page.

use vstd::prelude::*;
use crate::catalog::{FileRecord, check_name, valid_name};
use crate::codec::{is_digit_char, key_val8, suffix, x_key};
use crate::dates::{check_date_key, valid_date_key};

verus! {

broadcast use vstd::seq_lib::group_seq_lib_default;

/// What went wrong while folding a page in.
#[derive(Debug)]
pub enum SyncError {
    /// A partition entry did not name a valid `YYYYMMDD` date.
    BadDate,
    /// A partition entry was not strictly older than the one listed
    /// before it.  The watermark boundary is only sound on a
    /// newest-first listing, so discovery fails loudly instead of
    /// silently stopping in the wrong place.
    BadOrder,
    /// A file entry was empty or held a character the catalog cannot
    /// carry (whitespace, control characters, non-ASCII text).
    BadName,
}

/// One fetched page of the remote listing, as plain values: the listed
/// entry names, the "more pages follow" flag, and the continuation
/// cursor for the next request.
pub struct Page {
    pub entries: Vec<String>,
    pub truncated: bool,
    pub next_marker: Option<String>,
}

/// The view of an optional string.
pub open spec fn opt_str(o: Option<String>) -> Option<Seq<char>> {
    match o {
        Some(s) => Some(s@),
        None => None,
    }
}

/// The partition key a listing entry names, if it is exactly eight
/// digits naming a real calendar date.
pub open spec fn date_entry(t: Seq<char>) -> Option<int> {
    if t.len() == 8 && (forall|i: int| 0 <= i < 8 ==> is_digit_char(#[trigger] t[i]))
        && valid_date_key(key_val8(t)) {
        Some(key_val8(t))
    } else {
        None
    }
}

/// Parses a listing entry as a partition key.
pub fn parse_date_entry(s: &str) -> (r: Option<u32>)
    ensures
        match r {
            Some(k) => date_entry(s@) == Some(k as int),
            None => date_entry(s@) is None,
        },
{
    let n = s.unicode_len();
    if n != 8 {
        return None;
    }
    match x_key(s, 0) {
        Some((k, _)) => {
            proof {
                assert(suffix(s@, 0) =~= s@);
            }
            if check_date_key(k) {
                Some(k)
            } else {
                None
            }
        },
        None => {
            proof {
                assert(suffix(s@, 0) =~= s@);
            }
            None
        },
    }
}

/// The outcome of scanning one page of partition entries.
pub ghost enum ScanOut {
    /// The fresh keys in page order, whether the watermark boundary
    /// was reached, and the last entry key seen, carried to the next
    /// page's ordering check.
    Keys { ks: Seq<int>, stopped: bool, last: Option<int> },
    /// An entry did not name a valid date; the pass aborts.
    BadDate,
    /// An entry broke the strict newest-first order; the pass aborts.
    BadOrder,
}

/// What one page of partition entries contributes, scanned against
/// the boundary `since`, the current day, and `prev`, the last key of
/// the page before.
pub open spec fn scan_dates(
    entries: Seq<Seq<char>>,
    since: Option<int>,
    today: int,
    prev: Option<int>,
) -> ScanOut
    decreases entries.len(),
{
    if entries.len() == 0 {
        ScanOut::Keys { ks: Seq::empty(), stopped: false, last: prev }
    } else {
        match date_entry(entries[0]) {
            None => ScanOut::BadDate,
            Some(k) => {
                if prev matches Some(p) && k >= p {
                    ScanOut::BadOrder
                } else if since matches Some(w) && k <= w {
                    ScanOut::Keys { ks: Seq::empty(), stopped: true, last: Some(k) }
                } else {
                    match scan_dates(entries.drop_first(), since, today, Some(k)) {
                        ScanOut::Keys { ks, stopped, last } => if k == today {
                            ScanOut::Keys { ks, stopped, last }
                        } else {
                            ScanOut::Keys { ks: seq![k] + ks, stopped, last }
                        },
                        e => e,
                    }
                }
            },
        }
    }
}

/// Discovery keys stay strictly beyond the boundary, never name the
/// current day, and are always calendar-valid.
pub open spec fn keys_ok(ks: Seq<int>, since: Option<int>, today: int) -> bool {
    forall|i: int|
        0 <= i < ks.len() ==> valid_date_key(#[trigger] ks[i]) && ks[i] != today && (match since {
            Some(w) => ks[i] > w,
            None => true,
        })
}

/// Whatever one page contributes respects the discovery boundary.
pub proof fn lemma_scan_dates_bound(
    entries: Seq<Seq<char>>,
    since: Option<int>,
    today: int,
    prev: Option<int>,
)
    ensures
        match scan_dates(entries, since, today, prev) {
            ScanOut::Keys { ks, stopped, last } => keys_ok(ks, since, today),
            _ => true,
        },
    decreases entries.len(),
{
    if entries.len() > 0 {
        match date_entry(entries[0]) {
            None => {},
            Some(k) => {
                lemma_scan_dates_bound(entries.drop_first(), since, today, Some(k));
                if !(prev matches Some(p) && k >= p) && !(since matches Some(w) && k <= w) {
                    match scan_dates(entries.drop_first(), since, today, Some(k)) {
                        ScanOut::Keys { ks, stopped, last } => {
                            if k != today {
                                let out = seq![k] + ks;
                                assert forall|i: int| 0 <= i < out.len() implies valid_date_key(
                                    #[trigger] out[i],
                                ) && out[i] != today && (match since {
                                    Some(w) => out[i] > w,
                                    None => true,
                                }) by {
                                    if i > 0 {
                                        assert(out[i] == ks[i - 1]);
                                    }
                                }
                            }
                        },
                        _ => {},
                    }
                }
            },
        }
    }
}

/// The state of one partition-discovery pass.
pub struct DiscoverState {
    /// Keys discovered so far, in the order the listing reported them.
    pub found: Vec<u32>,
    /// Whether the walk is finished: the boundary was reached or the
    /// listing reported no further page.
    pub done: bool,
    /// The continuation cursor for the next page request.
    pub next_marker: Option<String>,
    /// The last entry key seen, for the ordering check across pages.
    pub last_key: Option<u32>,
}

impl DiscoverState {
    /// Starts a discovery pass.
    pub fn new() -> (r: DiscoverState)
        ensures
            r.found@.len() == 0,
            !r.done,
            r.next_marker is None,
            r.last_key is None,
    {
        DiscoverState { found: Vec::new(), done: false, next_marker: None, last_key: None }
    }

    /// Folds one fetched page into the walk.
    ///
    /// Every entry up to the boundary must parse as a valid date; a
    /// malformed entry aborts the pass with `BadDate` and leaves the
    /// state untouched.  Freshly discovered keys are appended in page
    /// order; the walk finishes when the boundary is reached, the page
    /// reports no continuation, or the page is empty.
    pub fn apply_page(&mut self, page: &Page, since: Option<u32>, today: u32) -> (r: Result<
        (),
        SyncError,
    >)
        requires
            !old(self).done,
        ensures
            match r {
                Ok(()) => match scan_dates(
                    page.entries@.map_values(|e: String| e@),
                    opt_u32(since),
                    today as int,
                    opt_u32(old(self).last_key),
                ) {
                    ScanOut::Keys { ks, stopped, last } => {
                        &&& final(self).found@.map_values(|k: u32| k as int) == old(
                            self,
                        ).found@.map_values(|k: u32| k as int) + ks
                        &&& final(self).done == (stopped || !page.truncated || page.entries@.len()
                            == 0)
                        &&& opt_u32(final(self).last_key) == last
                        &&& (stopped ==> final(self).next_marker == old(self).next_marker)
                        &&& (!stopped ==> opt_str(final(self).next_marker) == opt_str(
                            page.next_marker,
                        ))
                    },
                    _ => false,
                },
                Err(e) => {
                    &&& *final(self) == *old(self)
                    &&& match e {
                        SyncError::BadDate => scan_dates(
                            page.entries@.map_values(|e2: String| e2@),
                            opt_u32(since),
                            today as int,
                            opt_u32(old(self).last_key),
                        ) is BadDate,
                        SyncError::BadOrder => scan_dates(
                            page.entries@.map_values(|e2: String| e2@),
                            opt_u32(since),
                            today as int,
                            opt_u32(old(self).last_key),
                        ) is BadOrder,
                        SyncError::BadName => false,
                    }
                },
            },
            keys_ok(old(self).found@.map_values(|k: u32| k as int), opt_u32(since), today as int)
                ==> keys_ok(
                final(self).found@.map_values(|k: u32| k as int),
                opt_u32(since),
                today as int,
            ),
    {
        let pr = match scan_page(&page.entries, since, today, self.last_key) {
            Ok(pr) => pr,
            Err(e) => {
                return Err(e);
            },
        };
        let (fresh, stopped, last) = pr;
        let ghost oldfound = self.found@;
        let mut fi: usize = 0;
        let fn_ = fresh.len();
        while fi < fn_
            invariant
                fi <= fn_,
                fn_ == fresh@.len(),
                self.found@ == oldfound + fresh@.subrange(0, fi as int),
                self.done == old(self).done,
                self.next_marker == old(self).next_marker,
            decreases fn_ - fi,
        {
            self.found.push(fresh[fi]);
            proof {
                assert(oldfound + fresh@.subrange(0, fi + 1) =~= (oldfound + fresh@.subrange(
                    0,
                    fi as int,
                )).push(fresh@[fi as int]));
            }
            fi += 1;
        }
        proof {
            assert(fresh@.subrange(0, fn_ as int) =~= fresh@);
            assert(self.found@ == oldfound + fresh@);
            assert(self.found@.map_values(|k: u32| k as int) =~= oldfound.map_values(
                |k: u32| k as int,
            ) + fresh@.map_values(|k: u32| k as int));
            let oldm = oldfound.map_values(|k: u32| k as int);
            let freshm = fresh@.map_values(|k: u32| k as int);
            let sincem = opt_u32(since);
            lemma_scan_dates_bound(
                page.entries@.map_values(|e: String| e@),
                sincem,
                today as int,
                opt_u32(old(self).last_key),
            );
            if keys_ok(oldm, sincem, today as int) {
                assert(keys_ok(freshm, sincem, today as int));
                assert forall|i: int|
                    0 <= i < (oldm + freshm).len() implies valid_date_key(
                    #[trigger] (oldm + freshm)[i],
                ) && (oldm + freshm)[i] != today as int && (match sincem {
                    Some(w) => (oldm + freshm)[i] > w,
                    None => true,
                }) by {
                    if i < oldm.len() {
                        assert((oldm + freshm)[i] == oldm[i]);
                    } else {
                        assert((oldm + freshm)[i] == freshm[i - oldm.len()]);
                    }
                }
            }
        }
        self.last_key = last;
        if stopped {
            self.done = true;
        } else {
            self.done = !page.truncated || page.entries.len() == 0;
            self.next_marker = match &page.next_marker {
                Some(m) => Some(m.clone()),
                None => None,
            };
        }
        Ok(())
    }
}

/// Scans one page of partition entries: the fresh keys it contributes,
/// whether the watermark boundary was reached, and the last key seen.
#[verifier::rlimit(100)]
fn scan_page(entries: &Vec<String>, since: Option<u32>, today: u32, prev: Option<u32>) -> (r:
    Result<(Vec<u32>, bool, Option<u32>), SyncError>)
    ensures
        match r {
            Ok(pr) => scan_dates(
                entries@.map_values(|e: String| e@),
                opt_u32(since),
                today as int,
                opt_u32(prev),
            ) == (ScanOut::Keys {
                ks: pr.0@.map_values(|k: u32| k as int),
                stopped: pr.1,
                last: opt_u32(pr.2),
            }),
            Err(e) => match e {
                SyncError::BadDate => scan_dates(
                    entries@.map_values(|e2: String| e2@),
                    opt_u32(since),
                    today as int,
                    opt_u32(prev),
                ) is BadDate,
                SyncError::BadOrder => scan_dates(
                    entries@.map_values(|e2: String| e2@),
                    opt_u32(since),
                    today as int,
                    opt_u32(prev),
                ) is BadOrder,
                SyncError::BadName => false,
            },
        },
{
    let ghost ems = entries@.map_values(|e: String| e@);
    let ghost sincem = opt_u32(since);
    let mut fresh: Vec<u32> = Vec::new();
    let mut stopped = false;
    let mut cur_prev = prev;
    let n = entries.len();
    let mut i: usize = 0;
    proof {
        assert(suffix_entries(ems, 0) =~= ems);
        assert(fresh@.map_values(|k: u32| k as int) =~= Seq::<int>::empty());
    }
    while i < n && !stopped
        invariant
            i <= n,
            n == entries@.len(),
            ems == entries@.map_values(|e: String| e@),
            sincem == opt_u32(since),
            !stopped ==> match scan_dates(
                suffix_entries(ems, i as int),
                sincem,
                today as int,
                opt_u32(cur_prev),
            ) {
                ScanOut::Keys { ks, stopped: st2, last } => scan_dates(
                    ems,
                    sincem,
                    today as int,
                    opt_u32(prev),
                ) == (ScanOut::Keys {
                    ks: fresh@.map_values(|k: u32| k as int) + ks,
                    stopped: st2,
                    last,
                }),
                ScanOut::BadDate => scan_dates(ems, sincem, today as int, opt_u32(prev))
                    is BadDate,
                ScanOut::BadOrder => scan_dates(ems, sincem, today as int, opt_u32(prev))
                    is BadOrder,
            },
            stopped ==> scan_dates(ems, sincem, today as int, opt_u32(prev)) == (ScanOut::Keys {
                ks: fresh@.map_values(|k: u32| k as int),
                stopped: true,
                last: opt_u32(cur_prev),
            }),
        decreases n - i,
    {
        let ghost rest = suffix_entries(ems, i as int);
        proof {
            assert(rest.len() > 0);
            assert(rest[0] == ems[i as int]);
            assert(ems[i as int] == entries@[i as int]@);
            assert(rest.drop_first() =~= suffix_entries(ems, i + 1));
        }
        let k = match parse_date_entry(&entries[i]) {
            Some(k) => k,
            None => {
                return Err(SyncError::BadDate);
            },
        };
        let order_bad = match cur_prev {
            Some(p) => k >= p,
            None => false,
        };
        if order_bad {
            return Err(SyncError::BadOrder);
        }
        let boundary = match since {
            Some(w) => k <= w,
            None => false,
        };
        if boundary {
            stopped = true;
            cur_prev = Some(k);
            proof {
                assert(fresh@.map_values(|k2: u32| k2 as int) + Seq::<int>::empty()
                    =~= fresh@.map_values(|k2: u32| k2 as int));
            }
        } else {
            if k != today {
                proof {
                    let old_models = fresh@.map_values(|k2: u32| k2 as int);
                    assert(fresh@.push(k).map_values(|k2: u32| k2 as int) =~= old_models.push(
                        k as int,
                    ));
                    match scan_dates(
                        suffix_entries(ems, i + 1),
                        sincem,
                        today as int,
                        Some(k as int),
                    ) {
                        ScanOut::Keys { ks, stopped: st2, last } => {
                            assert(scan_dates(rest, sincem, today as int, opt_u32(cur_prev))
                                == (ScanOut::Keys { ks: seq![k as int] + ks, stopped: st2, last }));
                            assert(old_models + (seq![k as int] + ks) =~= old_models.push(k as int)
                                + ks);
                        },
                        _ => {},
                    }
                }
                fresh.push(k);
            } else {
                proof {
                    match scan_dates(
                        suffix_entries(ems, i + 1),
                        sincem,
                        today as int,
                        Some(k as int),
                    ) {
                        ScanOut::Keys { ks, stopped: st2, last } => {
                            assert(scan_dates(rest, sincem, today as int, opt_u32(cur_prev))
                                == (ScanOut::Keys { ks, stopped: st2, last }));
                        },
                        _ => {},
                    }
                }
            }
            cur_prev = Some(k);
        }
        i += 1;
    }
    proof {
        if !stopped {
            assert(i == n);
            assert(suffix_entries(ems, n as int).len() == 0);
            assert(scan_dates(suffix_entries(ems, n as int), sincem, today as int, opt_u32(
                cur_prev,
            )) == (ScanOut::Keys {
                ks: Seq::<int>::empty(),
                stopped: false,
                last: opt_u32(cur_prev),
            }));
            assert(fresh@.map_values(|k: u32| k as int) + Seq::<int>::empty()
                =~= fresh@.map_values(|k: u32| k as int));
        }
    }
    Ok((fresh, stopped, cur_prev))
}

/// The view of an optional key.
pub open spec fn opt_u32(o: Option<u32>) -> Option<int> {
    match o {
        Some(w) => Some(w as int),
        None => None,
    }
}

/// The state of one per-partition file-listing walk.  Unlike
/// discovery it has no early-stop boundary: it drains every page.
pub struct ListState {
    /// File names listed so far, in the order the listing reported
    /// them.
    pub files: Vec<FileRecord>,
    /// Whether the listing reported no further page.
    pub done: bool,
    /// The continuation cursor for the next page request.
    pub next_marker: Option<String>,
}

impl ListState {
    /// Starts a file-listing walk.
    pub fn new() -> (r: ListState)
        ensures
            r.files@.len() == 0,
            !r.done,
            r.next_marker is None,
    {
        ListState { files: Vec::new(), done: false, next_marker: None }
    }

    /// Folds one fetched page of file names into the walk.
    ///
    /// Every listed name must be one the catalog can carry; an invalid
    /// name aborts the listing with `BadName` and leaves the state
    /// untouched.  Valid names are appended in page order; the walk
    /// finishes when the page reports no continuation or is empty.
    pub fn apply_page(&mut self, page: &Page) -> (r: Result<(), SyncError>)
        requires
            !old(self).done,
        ensures
            match r {
                Ok(()) => {
                    &&& forall|i: int|
                        0 <= i < page.entries@.len() ==> valid_name((#[trigger] page.entries@[i])@)
                    &&& final(self).files@.map_values(|f: FileRecord| f@) == old(
                        self,
                    ).files@.map_values(|f: FileRecord| f@) + page.entries@.map_values(
                        |e: String| e@,
                    )
                    &&& final(self).done == (!page.truncated || page.entries@.len() == 0)
                    &&& opt_str(final(self).next_marker) == opt_str(page.next_marker)
                },
                Err(e) => {
                    &&& e is BadName
                    &&& *final(self) == *old(self)
                    &&& exists|i: int|
                        0 <= i < page.entries@.len() && !valid_name(
                            (#[trigger] page.entries@[i])@,
                        )
                },
            },
    {
        let n = page.entries.len();
        let mut i: usize = 0;
        while i < n
            invariant
                i <= n,
                n == page.entries@.len(),
                forall|j: int| 0 <= j < i ==> valid_name((#[trigger] page.entries@[j])@),
            decreases n - i,
        {
            if !check_name(page.entries[i].as_str()) {
                return Err(SyncError::BadName);
            }
            i += 1;
        }
        let ghost oldfiles = self.files@;
        let mut fi: usize = 0;
        while fi < n
            invariant
                fi <= n,
                n == page.entries@.len(),
                self.files@.len() == oldfiles.len() + fi,
                forall|j: int| 0 <= j < oldfiles.len() ==> self.files@[j] == oldfiles[j],
                forall|j: int|
                    oldfiles.len() <= j < oldfiles.len() + fi ==> (#[trigger] self.files@[j])@
                        == page.entries@[j - oldfiles.len()]@,
                self.done == old(self).done,
                self.next_marker == old(self).next_marker,
            decreases n - fi,
        {
            self.files.push(FileRecord { file_name: page.entries[fi].clone() });
            fi += 1;
        }
        proof {
            assert(self.files@.map_values(|f: FileRecord| f@) =~= oldfiles.map_values(
                |f: FileRecord| f@,
            ) + page.entries@.map_values(|e: String| e@));
        }
        self.done = !page.truncated || n == 0;
        self.next_marker = match &page.next_marker {
            Some(m) => Some(m.clone()),
            None => None,
        };
        Ok(())
    }
}

/// The entries from index `i` on.
pub open spec fn suffix_entries(entries: Seq<Seq<char>>, i: int) -> Seq<Seq<char>> {
    entries.subrange(i, entries.len() as int)
}

} // verus!
