//! The persisted state model: per-partition records and the catalog that
//! holds them together with the discovery watermark.

use vstd::prelude::*;
use crate::dates::valid_date_key;

verus! {

/// One file that belongs to a partition.
pub struct FileRecord {
    pub file_name: String,
}

impl View for FileRecord {
    type V = Seq<char>;

    open spec fn view(&self) -> Seq<char> {
        self.file_name@
    }
}

/// Spec model of a partition record.
#[verifier::ext_equal]
pub ghost struct RecModel {
    pub downloaded: bool,
    pub files: Seq<Seq<char>>,
}

/// The sync state of one partition.  An empty `files` list is the
/// sentinel for "the file listing has not been fetched yet"; it never
/// means "the partition has no files".
pub struct DateRecord {
    pub downloaded: bool,
    pub files: Vec<FileRecord>,
}

impl View for DateRecord {
    type V = RecModel;

    open spec fn view(&self) -> RecModel {
        RecModel {
            downloaded: self.downloaded,
            files: self.files@.map_values(|f: FileRecord| f@),
        }
    }
}

/// Spec model of a catalog.
#[verifier::ext_equal]
pub ghost struct CatModel {
    pub watermark: Option<int>,
    pub recs: Seq<(int, RecModel)>,
}

/// The durable sync state: a discovery watermark and one record per
/// known partition, keyed by `YYYYMMDD` partition key.
pub struct Catalog {
    pub watermark: Option<u32>,
    pub records: Vec<(u32, DateRecord)>,
}

impl View for Catalog {
    type V = CatModel;

    open spec fn view(&self) -> CatModel {
        CatModel {
            watermark: match self.watermark {
                Some(w) => Some(w as int),
                None => None,
            },
            recs: self.records@.map_values(|p: (u32, DateRecord)| (p.0 as int, p.1@)),
        }
    }
}

/// File names the catalog can hold: non-empty runs of graphic ASCII
/// characters (no spaces, control characters or non-ASCII text), which
/// is what keeps the persisted text form unambiguous.
pub open spec fn valid_name_char(c: char) -> bool {
    0x21 <= c as int <= 0x7e
}

pub open spec fn valid_name(s: Seq<char>) -> bool {
    s.len() > 0 && forall|i: int| 0 <= i < s.len() ==> valid_name_char(#[trigger] s[i])
}

/// Well-formedness of a partition record: every file name is valid.
pub open spec fn rec_wf(r: RecModel) -> bool {
    forall|i: int| 0 <= i < r.files.len() ==> valid_name(#[trigger] r.files[i])
}

/// No two records share a partition key.
pub open spec fn keys_unique(recs: Seq<(int, RecModel)>) -> bool {
    forall|i: int, j: int| 0 <= i < j < recs.len() ==> (#[trigger] recs[i]).0 != (#[trigger] recs[j]).0
}

/// Well-formedness of a catalog: unique, calendar-valid partition keys,
/// valid file names, and a calendar-valid watermark when one is set.
pub open spec fn cat_wf(m: CatModel) -> bool {
    &&& keys_unique(m.recs)
    &&& forall|i: int| 0 <= i < m.recs.len() ==> valid_date_key((#[trigger] m.recs[i]).0)
    &&& forall|i: int| 0 <= i < m.recs.len() ==> rec_wf((#[trigger] m.recs[i]).1)
    &&& match m.watermark {
        Some(w) => valid_date_key(w),
        None => true,
    }
}

/// Whether some record carries the key `k`.
pub open spec fn spec_contains_key(recs: Seq<(int, RecModel)>, k: int) -> bool {
    exists|i: int| 0 <= i < recs.len() && (#[trigger] recs[i]).0 == k
}

impl Catalog {
    /// A catalog with nothing known yet.
    pub fn empty() -> (r: Catalog)
        ensures
            r@.watermark is None,
            r@.recs.len() == 0,
    {
        Catalog { watermark: None, records: Vec::new() }
    }

    /// Number of known partitions.
    pub fn len(&self) -> (n: usize)
        ensures
            n == self@.recs.len(),
    {
        self.records.len()
    }

    /// Checks the whole catalog invariant: calendar-valid watermark
    /// and keys, no key twice, every file name one the catalog can
    /// carry.
    pub fn is_well_formed(&self) -> (r: bool)
        ensures
            r == cat_wf(self@),
    {
        match self.watermark {
            Some(w) => {
                if !crate::dates::check_date_key(w) {
                    return false;
                }
            },
            None => {},
        }
        let n = self.records.len();
        let mut i: usize = 0;
        while i < n
            invariant
                i <= n,
                n == self.records@.len(),
                forall|a: int| 0 <= a < i ==> valid_date_key((#[trigger] self@.recs[a]).0),
                forall|a: int| 0 <= a < i ==> rec_wf((#[trigger] self@.recs[a]).1),
                forall|a: int, b: int|
                    0 <= a < b < i ==> (#[trigger] self@.recs[a]).0 != (#[trigger] self@.recs[b]).0,
            decreases n - i,
        {
            let key = self.records[i].0;
            proof {
                assert((#[trigger] self@.recs[i as int]).0 == key as int);
            }
            if !crate::dates::check_date_key(key) {
                return false;
            }
            let m = self.records[i].1.files.len();
            let mut j: usize = 0;
            while j < m
                invariant
                    j <= m,
                    i < n,
                    n == self.records@.len(),
                    m == self.records@[i as int].1.files@.len(),
                    forall|b: int|
                        0 <= b < j ==> valid_name(#[trigger] self@.recs[i as int].1.files[b]),
                decreases m - j,
            {
                if !check_name(self.records[i].1.files[j].file_name.as_str()) {
                    proof {
                        assert(!valid_name(self@.recs[i as int].1.files[j as int]));
                        assert(!rec_wf(self@.recs[i as int].1));
                    }
                    return false;
                }
                proof {
                    assert(self@.recs[i as int].1.files[j as int] == self.records@[
                    i as int].1.files@[j as int]@);
                }
                j += 1;
            }
            proof {
                assert(rec_wf(self@.recs[i as int].1));
            }
            let mut q: usize = 0;
            while q < i
                invariant
                    q <= i,
                    i < n,
                    n == self.records@.len(),
                    key == self.records@[i as int].0,
                    forall|a: int|
                        0 <= a < q ==> (#[trigger] self@.recs[a]).0 != self@.recs[i as int].0,
                decreases i - q,
            {
                if self.records[q].0 == key {
                    proof {
                        assert(self@.recs[q as int].0 == self@.recs[i as int].0);
                    }
                    return false;
                }
                q += 1;
            }
            proof {
                assert forall|a: int, b: int| 0 <= a < b < i + 1 implies (
                #[trigger] self@.recs[a]).0 != (#[trigger] self@.recs[b]).0 by {}
            }
            i += 1;
        }
        true
    }

    /// Whether a record exists for key `k`.
    pub fn contains_key(&self, k: u32) -> (r: bool)
        ensures
            r == spec_contains_key(self@.recs, k as int),
    {
        let n = self.records.len();
        let mut i: usize = 0;
        while i < n
            invariant
                n == self.records.len(),
                i <= n,
                forall|j: int| 0 <= j < i ==> (#[trigger] self@.recs[j]).0 != k as int,
        decreases n - i,
        {
            if self.records[i].0 == k {
                proof {
                    assert((#[trigger] self@.recs[i as int]).0 == k as int);
                }
                return true;
            }
            i += 1;
        }
        false
    }
}

/// Checks that a file name is valid: non-empty, graphic ASCII.
pub fn check_name(s: &str) -> (r: bool)
    ensures
        r == valid_name(s@),
{
    let n = s.unicode_len();
    if n == 0 {
        return false;
    }
    let mut i: usize = 0;
    while i < n
        invariant
            n == s@.len(),
            i <= n,
            forall|j: int| 0 <= j < i ==> valid_name_char(#[trigger] s@[j]),
        decreases n - i,
    {
        let c = s.get_char(i);
        let v = c as u32;
        if v < 0x21 || v > 0x7e {
            return false;
        }
        i += 1;
    }
    true
}

impl PartialEq for FileRecord {
    fn eq(&self, other: &FileRecord) -> (r: bool) {
        self.file_name == other.file_name
    }
}

impl vstd::std_specs::cmp::PartialEqSpecImpl for FileRecord {
    open spec fn obeys_eq_spec() -> bool {
        true
    }

    open spec fn eq_spec(&self, other: &FileRecord) -> bool {
        self@ == other@
    }
}

impl Clone for FileRecord {
    fn clone(&self) -> (r: FileRecord)
        ensures
            r@ == self@,
    {
        FileRecord { file_name: self.file_name.clone() }
    }
}

impl PartialEq for DateRecord {
    fn eq(&self, other: &DateRecord) -> (r: bool) {
        if self.downloaded != other.downloaded {
            return false;
        }
        if self.files.len() != other.files.len() {
            proof {
                assert(self@.files.len() == self.files@.len());
                assert(other@.files.len() == other.files@.len());
            }
            return false;
        }
        let n = self.files.len();
        let mut i: usize = 0;
        while i < n
            invariant
                n == self.files.len() == other.files.len(),
                i <= n,
                forall|j: int| 0 <= j < i ==> self.files@[j]@ == other.files@[j]@,
            decreases n - i,
        {
            if !(self.files[i] == other.files[i]) {
                proof {
                    assert(self@.files[i as int] != other@.files[i as int]);
                    assert(self@ != other@);
                }
                return false;
            }
            i += 1;
        }
        proof {
            assert(self@.files =~= other@.files);
            assert(self@ =~= other@);
        }
        true
    }
}

impl vstd::std_specs::cmp::PartialEqSpecImpl for DateRecord {
    open spec fn obeys_eq_spec() -> bool {
        true
    }

    open spec fn eq_spec(&self, other: &DateRecord) -> bool {
        self@ == other@
    }
}

impl Clone for DateRecord {
    fn clone(&self) -> (r: DateRecord)
        ensures
            r@ == self@,
    {
        let mut files: Vec<FileRecord> = Vec::new();
        let n = self.files.len();
        let mut i: usize = 0;
        while i < n
            invariant
                n == self.files.len(),
                i <= n,
                files.len() == i,
                forall|j: int| 0 <= j < i ==> files@[j]@ == self.files@[j]@,
            decreases n - i,
        {
            files.push(self.files[i].clone());
            i += 1;
        }
        let r = DateRecord { downloaded: self.downloaded, files };
        proof {
            assert(r@.files =~= self@.files);
            assert(r@ =~= self@);
        }
        r
    }
}

impl PartialEq for Catalog {
    fn eq(&self, other: &Catalog) -> (r: bool) {
        let wm_eq = match (self.watermark, other.watermark) {
            (Some(a), Some(b)) => a == b,
            (None, None) => true,
            _ => false,
        };
        if !wm_eq {
            proof {
                assert(self@ != other@);
            }
            return false;
        }
        if self.records.len() != other.records.len() {
            proof {
                assert(self@.recs.len() == self.records@.len());
                assert(other@.recs.len() == other.records@.len());
            }
            return false;
        }
        let n = self.records.len();
        let mut i: usize = 0;
        while i < n
            invariant
                n == self.records.len() == other.records.len(),
                i <= n,
                self@.watermark == other@.watermark,
                forall|j: int| 0 <= j < i ==> self@.recs[j] == other@.recs[j],
        decreases n - i,
        {
            if self.records[i].0 != other.records[i].0 {
                proof {
                    assert(self@.recs[i as int].0 != other@.recs[i as int].0);
                    assert(self@ != other@);
                }
                return false;
            }
            if !(self.records[i].1 == other.records[i].1) {
                proof {
                    assert(self@.recs[i as int].1 != other@.recs[i as int].1);
                    assert(self@ != other@);
                }
                return false;
            }
            i += 1;
        }
        proof {
            assert(self@.recs =~= other@.recs);
            assert(self@ =~= other@);
        }
        true
    }
}

impl vstd::std_specs::cmp::PartialEqSpecImpl for Catalog {
    open spec fn obeys_eq_spec() -> bool {
        true
    }

    open spec fn eq_spec(&self, other: &Catalog) -> bool {
        self@ == other@
    }
}

impl Clone for Catalog {
    fn clone(&self) -> (r: Catalog)
        ensures
            r@ == self@,
    {
        let mut records: Vec<(u32, DateRecord)> = Vec::new();
        let n = self.records.len();
        let mut i: usize = 0;
        while i < n
            invariant
                n == self.records.len(),
                i <= n,
                records.len() == i,
                forall|j: int| 0 <= j < i ==> records@.map_values(
                    |p: (u32, DateRecord)| (p.0 as int, p.1@),
                )[j] == self@.recs[j],
            decreases n - i,
        {
            let key = self.records[i].0;
            let rec = self.records[i].1.clone();
            records.push((key, rec));
            i += 1;
        }
        let r = Catalog { watermark: self.watermark, records };
        proof {
            assert(r@.recs =~= self@.recs);
            assert(r@ =~= self@);
        }
        r
    }
}

} // verus!
