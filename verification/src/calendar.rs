use vstd::prelude::*;
use vstd::arithmetic::div_mod::{
    lemma_div_is_ordered_by_denominator, lemma_div_pos_is_pos, lemma_fundamental_div_mod,
    lemma_fundamental_div_mod_converse, lemma_div_is_ordered, lemma_div_nonincreasing,
};
use crate::error::DateError;

verus! {

// ---------------------------------------------------------------------------
// The mathematical model of the proleptic Gregorian calendar.
//
// A date is a signed count of days since a fixed epoch: day 0 is the first
// of January of year 1, the first representable year (there is no year 0).
// The largest supported day count is `i32::MAX`.
// ---------------------------------------------------------------------------

/// True exactly for leap years of the proleptic Gregorian calendar:
/// every fourth year, except centuries that are not divisible by 400.
pub open spec fn is_leap_year(y: int) -> bool {
    (y % 4 == 0 && y % 100 != 0) || y % 400 == 0
}

/// Number of days in year `y`.
pub open spec fn days_in_year(y: int) -> int {
    if is_leap_year(y) {
        366
    } else {
        365
    }
}

/// Number of days in month `m` of year `y`.
pub open spec fn days_in_month(y: int, m: int) -> int {
    if m == 2 {
        if is_leap_year(y) {
            29
        } else {
            28
        }
    } else if m == 4 || m == 6 || m == 9 || m == 11 {
        30
    } else {
        31
    }
}

/// Number of leap years among the years `1..=n`.
pub open spec fn leap_years_through(n: int) -> int {
    n / 4 - n / 100 + n / 400
}

/// Day count of the first of January of year `y`.
pub open spec fn year_start_days(y: int) -> int {
    365 * (y - 1) + leap_years_through(y - 1)
}

/// Days of year `y` that pass before month `m` begins.
pub open spec fn days_before_month(y: int, m: int) -> int
    decreases m,
{
    if m <= 1 {
        0
    } else {
        days_before_month(y, m - 1) + days_in_month(y, m - 1)
    }
}

/// Day count of the calendar date `(y, m, d)`.
pub open spec fn days_of_ymd(y: int, m: int, d: int) -> int {
    year_start_days(y) + days_before_month(y, m) + (d - 1)
}

/// A calendar date the library represents: the fields are calendrically
/// valid and its day count fits the supported range.
pub open spec fn valid_ymd(y: int, m: int, d: int) -> bool {
    &&& 1 <= y
    &&& 1 <= m <= 12
    &&& 1 <= d <= days_in_month(y, m)
    &&& days_of_ymd(y, m, d) <= i32::MAX
}

/// Walks forward one year at a time: splits a day offset relative to the
/// first of January of year `y` into a year and an offset into that year.
pub open spec fn year_split(y: int, rem: int) -> (int, int)
    decreases rem,
{
    if rem < days_in_year(y) {
        (y, rem)
    } else {
        year_split(y + 1, rem - days_in_year(y))
    }
}

/// Walks forward one month at a time: splits a day offset relative to the
/// first of month `m` into a month and an offset into that month.
pub open spec fn month_split(y: int, m: int, rem: int) -> (int, int)
    decreases 12 - m,
{
    if m >= 12 || rem < days_in_month(y, m) {
        (m, rem)
    } else {
        month_split(y, m + 1, rem - days_in_month(y, m))
    }
}

/// The `(year, month, day)` triple a day count stands for; the inverse of
/// `days_of_ymd` on valid dates.
pub open spec fn ymd_of_days(days: int) -> (int, int, int) {
    let (y, rem) = year_split(1, days);
    let (m, d0) = month_split(y, 1, rem);
    (y, m, d0 + 1)
}

// ---------------------------------------------------------------------------
// Facts about the model.
// ---------------------------------------------------------------------------

/// Stepping the dividend down by one lowers the quotient exactly at the
/// multiples of the divisor.
proof fn lemma_div_step(n: int, k: int)
    requires
        1 <= n,
        2 <= k,
    ensures
        n / k == (n - 1) / k + if n % k == 0 { 1int } else { 0int },
{
    let q = n / k;
    let r = n % k;
    lemma_fundamental_div_mod(n, k);
    vstd::arithmetic::div_mod::lemma_mod_bound(n, k);
    if r == 0 {
        lemma_div_pos_is_pos(n, k);
        assert((q - 1) * k + (k - 1) == n - 1) by (nonlinear_arith)
            requires
                n == k * q,
        ;
        lemma_fundamental_div_mod_converse(n - 1, k, q - 1, k - 1);
    } else {
        lemma_fundamental_div_mod_converse(n - 1, k, q, r - 1);
    }
}

/// A year divisible by 400 is divisible by 100, and one divisible by 100
/// is divisible by 4.
proof fn lemma_century_divisibility(y: int)
    ensures
        y % 400 == 0 ==> y % 100 == 0,
        y % 100 == 0 ==> y % 4 == 0,
{
    if y % 400 == 0 {
        lemma_fundamental_div_mod(y, 400);
        assert(y == 100 * (4 * (y / 400)) + 0);
        lemma_fundamental_div_mod_converse(y, 100, 4 * (y / 400), 0);
    }
    if y % 100 == 0 {
        lemma_fundamental_div_mod(y, 100);
        assert(y == 4 * (25 * (y / 100)) + 0);
        lemma_fundamental_div_mod_converse(y, 4, 25 * (y / 100), 0);
    }
}

/// From one first of January to the next lie exactly the days of the year
/// in between.
proof fn lemma_year_start_step(y: int)
    requires
        1 <= y,
    ensures
        year_start_days(y + 1) == year_start_days(y) + days_in_year(y),
{
    lemma_div_step(y, 4);
    lemma_div_step(y, 100);
    lemma_div_step(y, 400);
    lemma_century_divisibility(y);
}

/// The count of leap years up to `n` is between 0 and `n`.
proof fn lemma_leap_years_through_bounds(n: int)
    requires
        0 <= n,
    ensures
        0 <= leap_years_through(n) <= n,
{
    lemma_div_is_ordered_by_denominator(n, 4, 100);
    lemma_div_pos_is_pos(n, 400);
    lemma_div_pos_is_pos(n, 100);
    lemma_div_nonincreasing(n, 4);
    lemma_div_nonincreasing(n, 400);
}

/// Later years begin at strictly larger day counts; a whole year of days
/// separates consecutive ones.
proof fn lemma_year_start_mono(y1: int, y2: int)
    requires
        1 <= y1 <= y2,
    ensures
        year_start_days(y1) <= year_start_days(y2),
        y1 < y2 ==> year_start_days(y1) + days_in_year(y1) <= year_start_days(y2),
    decreases y2 - y1,
{
    if y1 < y2 {
        lemma_year_start_step(y1);
        lemma_year_start_mono(y1 + 1, y2);
    }
}

/// The twelve months of a year together hold exactly its days.
proof fn lemma_days_before_month_full(y: int)
    ensures
        days_before_month(y, 13) == days_in_year(y),
{
    reveal_with_fuel(days_before_month, 14);
}

/// Later months of a year begin at strictly larger offsets; a whole month
/// of days separates consecutive ones.
proof fn lemma_days_before_month_mono(y: int, m1: int, m2: int)
    requires
        1 <= m1 <= m2 <= 13,
    ensures
        days_before_month(y, m1) <= days_before_month(y, m2),
        m1 < m2 ==> days_before_month(y, m1) + days_in_month(y, m1) <= days_before_month(y, m2),
    decreases m2 - m1,
{
    if m1 < m2 {
        lemma_days_before_month_mono(y, m1 + 1, m2);
    }
}

/// `year_split` lands in the year that contains the given day count, with
/// the offset into that year.
proof fn lemma_year_split(y: int, rem: int)
    requires
        1 <= y,
        0 <= rem,
    ensures
        ({
            let (ry, rrem) = year_split(y, rem);
            &&& y <= ry
            &&& 0 <= rrem < days_in_year(ry)
            &&& year_start_days(ry) + rrem == year_start_days(y) + rem
        }),
    decreases rem,
{
    if rem >= days_in_year(y) {
        lemma_year_start_step(y);
        lemma_year_split(y + 1, rem - days_in_year(y));
    }
}

/// `month_split` lands in the month that contains the given offset into
/// the year, with the offset into that month.
proof fn lemma_month_split(y: int, m: int, rem: int)
    requires
        1 <= m <= 12,
        0 <= rem,
        days_before_month(y, m) + rem < days_in_year(y),
    ensures
        ({
            let (rm, rrem) = month_split(y, m, rem);
            &&& m <= rm <= 12
            &&& 0 <= rrem < days_in_month(y, rm)
            &&& days_before_month(y, rm) + rrem == days_before_month(y, m) + rem
        }),
    decreases 12 - m,
{
    if m >= 12 || rem < days_in_month(y, m) {
        if m == 12 {
            lemma_days_before_month_full(y);
        }
    } else {
        lemma_month_split(y, m + 1, rem - days_in_month(y, m));
    }
}

/// Every supported day count decomposes into a valid calendar date whose
/// day count it is.
pub proof fn lemma_ymd_of_days_valid(days: int)
    requires
        0 <= days <= i32::MAX,
    ensures
        ({
            let (y, m, d) = ymd_of_days(days);
            &&& valid_ymd(y, m, d)
            &&& days_of_ymd(y, m, d) == days
        }),
{
    lemma_year_split(1, days);
    let (y, rem) = year_split(1, days);
    assert(year_start_days(1) == 0) by {
        lemma_leap_years_through_bounds(0);
    }
    lemma_month_split(y, 1, rem);
}

/// Law: the day count of a valid calendar date is unique to it — two valid
/// dates with one day count are the same date.
pub proof fn lemma_days_of_ymd_injective(
    y1: int,
    m1: int,
    d1: int,
    y2: int,
    m2: int,
    d2: int,
)
    requires
        valid_ymd(y1, m1, d1),
        valid_ymd(y2, m2, d2),
        days_of_ymd(y1, m1, d1) == days_of_ymd(y2, m2, d2),
    ensures
        y1 == y2 && m1 == m2 && d1 == d2,
{
    lemma_days_before_month_mono(y1, m1, 13);
    lemma_days_before_month_mono(y2, m2, 13);
    lemma_days_before_month_full(y1);
    lemma_days_before_month_full(y2);
    lemma_days_before_month_mono(y1, 1, m1);
    lemma_days_before_month_mono(y2, 1, m2);
    if y1 < y2 {
        lemma_year_start_mono(y1, y2);
        assert(false);
    }
    if y2 < y1 {
        lemma_year_start_mono(y2, y1);
        assert(false);
    }
    if m1 < m2 {
        lemma_days_before_month_mono(y1, m1, m2);
        assert(false);
    }
    if m2 < m1 {
        lemma_days_before_month_mono(y1, m2, m1);
        assert(false);
    }
}

/// Law: decomposing the day count of a valid calendar date gives back
/// exactly that `(year, month, day)` triple.
pub proof fn lemma_ymd_round_trip(y: int, m: int, d: int)
    requires
        valid_ymd(y, m, d),
    ensures
        ymd_of_days(days_of_ymd(y, m, d)) == (y, m, d),
{
    let days = days_of_ymd(y, m, d);
    assert(0 <= days) by {
        lemma_leap_years_through_bounds(y - 1);
        lemma_days_before_month_mono(y, 1, m);
    }
    lemma_ymd_of_days_valid(days);
    let (y2, m2, d2) = ymd_of_days(days);
    lemma_days_of_ymd_injective(y2, m2, d2, y, m, d);
}

/// A year whose first of January is a supported day count is at most
/// 5883517.
pub proof fn lemma_year_bound(y: int)
    requires
        1 <= y,
        year_start_days(y) <= i32::MAX,
    ensures
        y <= 5883517,
{
    lemma_leap_years_through_bounds(y - 1);
}

/// A valid date's day count is not negative, and its year is at most
/// 5883517.
pub proof fn lemma_valid_ymd_bounds(y: int, m: int, d: int)
    requires
        valid_ymd(y, m, d),
    ensures
        0 <= days_of_ymd(y, m, d),
        y <= 5883517,
{
    lemma_leap_years_through_bounds(y - 1);
    lemma_days_before_month_mono(y, 1, m);
    lemma_year_bound(y);
}

/// Beyond the largest supported year every day count overflows the
/// supported range.
pub proof fn lemma_huge_year_out_of_range(y: int, m: int, d: int)
    requires
        5883518 <= y,
        1 <= m <= 13,
        1 <= d,
    ensures
        days_of_ymd(y, m, d) > i32::MAX,
{
    lemma_leap_years_through_bounds(y - 1);
    lemma_days_before_month_mono(y, 1, m);
}

/// A span of 400 years always holds exactly 146097 days.
proof fn lemma_year_start_era(k: int)
    requires
        0 <= k,
    ensures
        year_start_days(400 * k + 1) == 146097 * k,
{
    assert(400 * k == (100 * k) * 4 + 0) by (nonlinear_arith);
    assert(400 * k == (4 * k) * 100 + 0) by (nonlinear_arith);
    assert(400 * k == k * 400 + 0) by (nonlinear_arith);
    lemma_fundamental_div_mod_converse(400 * k, 4, 100 * k, 0);
    lemma_fundamental_div_mod_converse(400 * k, 100, 4 * k, 0);
    lemma_fundamental_div_mod_converse(400 * k, 400, k, 0);
}

// ---------------------------------------------------------------------------
// Executable conversions.
// ---------------------------------------------------------------------------

/// True exactly for leap years of the proleptic Gregorian calendar.
pub fn leap_year(year: i32) -> (r: bool)
    requires
        1 <= year,
    ensures
        r == is_leap_year(year as int),
{
    let y = year as u32;
    (y % 4 == 0 && y % 100 != 0) || y % 400 == 0
}

/// Number of days in month `month` of year `year`.
pub fn month_length(year: i32, month: u32) -> (r: u32)
    requires
        1 <= year,
    ensures
        r as int == days_in_month(year as int, month as int),
{
    if month == 2 {
        if leap_year(year) {
            29
        } else {
            28
        }
    } else if month == 4 || month == 6 || month == 9 || month == 11 {
        30
    } else {
        31
    }
}

/// Number of days in year `year`.
fn year_length(year: i32) -> (r: u32)
    requires
        1 <= year,
    ensures
        r as int == days_in_year(year as int),
{
    if leap_year(year) {
        366
    } else {
        365
    }
}

/// Days of year `year` that pass before month `month` begins.
fn month_days_before(year: i32, month: u32) -> (r: u32)
    requires
        1 <= year,
        1 <= month <= 12,
    ensures
        r as int == days_before_month(year as int, month as int),
{
    let mut acc: u32 = 0;
    let mut m: u32 = 1;
    while m < month
        invariant
            1 <= year,
            1 <= m <= month <= 12,
            acc as int == days_before_month(year as int, m as int),
            acc <= 366,
        decreases month - m,
    {
        proof {
            lemma_days_before_month_mono(year as int, m as int + 1, 13);
            lemma_days_before_month_full(year as int);
        }
        acc = acc + month_length(year, m);
        m = m + 1;
    }
    acc
}

/// Validates a `(year, month, day)` triple and returns its day count.
///
/// Succeeds exactly on the valid calendar dates whose day count fits the
/// supported range; everything else is reported as out of range.
pub fn days_from_ymd(year: i32, month: u32, day: u32) -> (r: Result<i32, DateError>)
    ensures
        valid_ymd(year as int, month as int, day as int) ==> (r matches Ok(n) && n as int
            == days_of_ymd(year as int, month as int, day as int)),
        !valid_ymd(year as int, month as int, day as int) ==> (r matches Err(e)
            && e is OutOfRange),
{
    if year < 1 {
        return Err(crate::error::out_of_range("year must be 1 or greater"));
    }
    if month < 1 || month > 12 {
        return Err(crate::error::out_of_range("month must be between 1 and 12"));
    }
    let len = month_length(year, month);
    if day < 1 || day > len {
        return Err(
            crate::error::out_of_range("day must be between 1 and the length of the month"),
        );
    }
    let n: u64 = (year - 1) as u64;
    proof {
        lemma_div_is_ordered_by_denominator(n as int, 4, 100);
        lemma_div_pos_is_pos(n as int, 400);
        lemma_div_nonincreasing(n as int, 4);
    }
    let leaps: u64 = n / 4 - n / 100 + n / 400;
    let before_year: u64 = 365 * n + leaps;
    let before_month: u64 = month_days_before(year, month) as u64;
    let total: u64 = before_year + before_month + (day - 1) as u64;
    if total > i32::MAX as u64 {
        return Err(crate::error::out_of_range("date exceeds the largest supported day count"));
    }
    Ok(total as i32)
}

/// Decomposes a day count into the `(year, month, day)` triple it stands
/// for.
pub fn ymd_from_days(days: i32) -> (r: (i32, u32, u32))
    requires
        0 <= days,
    ensures
        ({
            let (y, m, d) = ymd_of_days(days as int);
            r.0 as int == y && r.1 as int == m && r.2 as int == d
        }),
{
    proof {
        lemma_ymd_of_days_valid(days as int);
    }
    let du: u32 = days as u32;
    let era: u32 = du / 146097;
    let mut rem: u32 = du % 146097;
    proof {
        lemma_fundamental_div_mod(du as int, 146097);
        lemma_year_start_era(era as int);
    }
    let mut y: i32 = (era * 400) as i32 + 1;
    while rem >= year_length(y)
        invariant
            1 <= y,
            year_start_days(y as int) + rem as int == days as int,
            days <= i32::MAX,
        decreases rem,
    {
        proof {
            lemma_year_start_step(y as int);
            lemma_year_bound(y as int);
        }
        rem = rem - year_length(y);
        y = y + 1;
    }
    let mut m: u32 = 1;
    while m < 12 && rem >= month_length(y, m)
        invariant
            1 <= y,
            1 <= m <= 12,
            year_start_days(y as int) + days_before_month(y as int, m as int) + rem as int
                == days as int,
            0 <= days_before_month(y as int, m as int),
            days_in_year(y as int) > days_before_month(y as int, m as int) + rem as int,
        decreases 12 - m,
    {
        rem = rem - month_length(y, m);
        m = m + 1;
    }
    proof {
        lemma_days_before_month_full(y as int);
        let (sy, sm, sd) = ymd_of_days(days as int);
        lemma_days_of_ymd_injective(
            sy,
            sm,
            sd,
            y as int,
            m as int,
            rem as int + 1,
        );
    }
    (y, m, rem + 1)
}

} // verus!
