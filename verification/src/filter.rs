//! The include/exclude file-name filter.
//!
//! A name passes when it contains at least one include pattern (or no
//! include list is set) and contains no exclude pattern.

use vstd::prelude::*;

verus! {

/// `needle` occurs contiguously somewhere in `hay`.
pub open spec fn is_substring(hay: Seq<char>, needle: Seq<char>) -> bool {
    exists|i: int|
        0 <= i && i + needle.len() <= hay.len() && #[trigger] hay.subrange(i, i + needle.len())
            == needle
}

/// Some pattern of the list occurs in `name`.
pub open spec fn any_contains(pats: Seq<Seq<char>>, name: Seq<char>) -> bool {
    exists|j: int| 0 <= j < pats.len() && is_substring(name, #[trigger] pats[j])
}

/// A caller-supplied filter over file names, built from optional
/// include and exclude substring lists.
pub struct NameFilter {
    pub includes: Option<Vec<String>>,
    pub excludes: Option<Vec<String>>,
}

/// Whether the filter accepts a name: included (or no include list)
/// and not excluded.
pub open spec fn spec_accepts(f: &NameFilter, name: Seq<char>) -> bool {
    (match f.includes {
        Some(incs) => any_contains(incs@.map_values(|s: String| s@), name),
        None => true,
    }) && !(match f.excludes {
        Some(excs) => any_contains(excs@.map_values(|s: String| s@), name),
        None => false,
    })
}

/// Whether `needle` stands at position `i` of `hay`.
fn match_at(hay: &str, needle: &str, i: usize) -> (r: bool)
    requires
        i + needle@.len() <= hay@.len(),
    ensures
        r == (hay@.subrange(i as int, i + needle@.len()) == needle@),
{
    let m = needle.unicode_len();
    let nh = hay.unicode_len();
    let mut j: usize = 0;
    while j < m
        invariant
            j <= m,
            m == needle@.len(),
            nh == hay@.len(),
            i + m <= nh,
            forall|p: int| 0 <= p < j ==> hay@[i + p] == needle@[p],
        decreases m - j,
    {
        if hay.get_char(i + j) != needle.get_char(j) {
            proof {
                assert(hay@.subrange(i as int, i + needle@.len())[j as int] != needle@[j as int]);
            }
            return false;
        }
        j += 1;
    }
    proof {
        assert(hay@.subrange(i as int, i + needle@.len()) =~= needle@);
    }
    true
}

/// Whether `needle` occurs in `hay`.
pub fn contains_sub(hay: &str, needle: &str) -> (r: bool)
    ensures
        r == is_substring(hay@, needle@),
{
    let n = hay.unicode_len();
    let m = needle.unicode_len();
    if m > n {
        return false;
    }
    if m == 0 {
        proof {
            assert(hay@.subrange(0, 0 + needle@.len() as int) =~= needle@);
        }
        return true;
    }
    let mut i: usize = 0;
    while i <= n - m
        invariant
            1 <= m <= n,
            n == hay@.len(),
            m == needle@.len(),
            i <= n - m + 1,
            forall|q: int| 0 <= q < i ==> #[trigger] hay@.subrange(q, q + needle@.len())
                != needle@,
        decreases n - m + 1 - i,
    {
        if match_at(hay, needle, i) {
            return true;
        }
        i += 1;
    }
    proof {
        assert forall|q: int|
            0 <= q && q + needle@.len() <= hay@.len() implies #[trigger] hay@.subrange(
            q,
            q + needle@.len(),
        ) != needle@ by {
            assert(q < n - m + 1);
        }
    }
    false
}

impl NameFilter {
    /// A filter that accepts every name.
    pub fn accept_all() -> (r: NameFilter)
        ensures
            r.includes is None,
            r.excludes is None,
            forall|name: Seq<char>| spec_accepts(&r, name),
    {
        NameFilter { includes: None, excludes: None }
    }

    /// Whether this filter accepts the file name.
    pub fn accepts(&self, name: &str) -> (r: bool)
        ensures
            r == spec_accepts(self, name@),
    {
        let included = match &self.includes {
            Some(incs) => {
                let mut found = false;
                let n = incs.len();
                let mut j: usize = 0;
                while j < n
                    invariant
                        j <= n,
                        n == incs@.len(),
                        found == exists|q: int|
                            0 <= q < j && is_substring(name@, (#[trigger] incs@[q])@),
                    decreases n - j,
                {
                    if contains_sub(name, incs[j].as_str()) {
                        found = true;
                    }
                    j += 1;
                }
                proof {
                    let pats = incs@.map_values(|s: String| s@);
                    assert(found == any_contains(pats, name@)) by {
                        if found {
                            let q = choose|q: int|
                                0 <= q < incs@.len() && is_substring(
                                    name@,
                                    (#[trigger] incs@[q])@,
                                );
                            assert(is_substring(name@, pats[q]));
                        } else {
                            if any_contains(pats, name@) {
                                let q = choose|q: int|
                                    0 <= q < pats.len() && is_substring(name@, #[trigger] pats[q]);
                                assert(is_substring(name@, (incs@[q])@));
                                assert(false);
                            }
                        }
                    }
                }
                found
            },
            None => true,
        };
        let excluded = match &self.excludes {
            Some(excs) => {
                let mut found = false;
                let n = excs.len();
                let mut j: usize = 0;
                while j < n
                    invariant
                        j <= n,
                        n == excs@.len(),
                        found == exists|q: int|
                            0 <= q < j && is_substring(name@, (#[trigger] excs@[q])@),
                    decreases n - j,
                {
                    if contains_sub(name, excs[j].as_str()) {
                        found = true;
                    }
                    j += 1;
                }
                proof {
                    let pats = excs@.map_values(|s: String| s@);
                    assert(found == any_contains(pats, name@)) by {
                        if found {
                            let q = choose|q: int|
                                0 <= q < excs@.len() && is_substring(
                                    name@,
                                    (#[trigger] excs@[q])@,
                                );
                            assert(is_substring(name@, pats[q]));
                        } else {
                            if any_contains(pats, name@) {
                                let q = choose|q: int|
                                    0 <= q < pats.len() && is_substring(name@, #[trigger] pats[q]);
                                assert(is_substring(name@, (excs@[q])@));
                                assert(false);
                            }
                        }
                    }
                }
                found
            },
            None => false,
        };
        included && !excluded
    }
}

} // verus!
