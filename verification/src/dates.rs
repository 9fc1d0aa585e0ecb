//! Partition keys: dates in `YYYYMMDD` form, carried as plain integers.
//!
//! A partition key such as `20240102` orders numerically exactly as it
//! orders by calendar date, so the library keeps keys as `u32` values and
//! checks calendar validity itself.

use vstd::prelude::*;

verus! {

/// The year part of a partition key.
pub open spec fn key_year(k: int) -> int {
    k / 10000
}

/// The month part of a partition key.
pub open spec fn key_month(k: int) -> int {
    (k / 100) % 100
}

/// The day part of a partition key.
pub open spec fn key_day(k: int) -> int {
    k % 100
}

/// Whether a year is a leap year in the Gregorian calendar.
pub open spec fn is_leap_year(y: int) -> bool {
    (y % 4 == 0 && y % 100 != 0) || y % 400 == 0
}

/// Number of days in a month of a year.
pub open spec fn days_in_month(y: int, m: int) -> int {
    if m == 2 {
        if is_leap_year(y) {
            29
        } else {
            28
        }
    } else if m == 4 || m == 6 || m == 9 || m == 11 {
        30
    } else {
        31
    }
}

/// A valid partition key: eight decimal digits `YYYYMMDD` naming a real
/// calendar date (the year written with four digits).
pub open spec fn valid_date_key(k: int) -> bool {
    &&& 1000 <= key_year(k) <= 9999
    &&& 1 <= key_month(k) <= 12
    &&& 1 <= key_day(k) <= days_in_month(key_year(k), key_month(k))
}

/// Checks that `k` names a real `YYYYMMDD` calendar date.
pub fn check_date_key(k: u32) -> (r: bool)
    ensures
        r == valid_date_key(k as int),
{
    let y = k / 10000;
    let m = (k / 100) % 100;
    let d = k % 100;
    if y < 1000 || y > 9999 || m < 1 || m > 12 || d < 1 {
        return false;
    }
    let leap = (y % 4 == 0 && y % 100 != 0) || y % 400 == 0;
    let dim: u32 = if m == 2 {
        if leap {
            29
        } else {
            28
        }
    } else if m == 4 || m == 6 || m == 9 || m == 11 {
        30
    } else {
        31
    };
    d <= dim
}

/// A valid key always fits in eight digits.
pub proof fn lemma_valid_key_bounds(k: int)
    requires
        valid_date_key(k),
    ensures
        10000000 <= k < 100000000,
{
}

} // verus!
