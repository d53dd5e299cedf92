use vstd::prelude::*;
use vstd::arithmetic::div_mod::{
    lemma_div_is_ordered, lemma_fundamental_div_mod, lemma_fundamental_div_mod_converse,
};
use crate::calendar;
use crate::calendar::{
    days_in_month, days_of_ymd, lemma_huge_year_out_of_range, lemma_valid_ymd_bounds,
    lemma_ymd_of_days_valid, valid_ymd, ymd_of_days,
};
use crate::error::{out_of_range, DateError};

verus! {

/// Selects the calendar field an operation targets.
#[derive(Clone, Copy, PartialEq, Eq, Structural, Debug)]
pub enum DateUnit {
    Year,
    Month,
    Day,
}

/// An immutable calendar date: a signed count of days since the first of
/// January of year 1 (proleptic Gregorian). Every value corresponds to a
/// valid, in-range calendar date; transformations return new values and
/// never alter their input.
#[derive(Clone, Copy, PartialEq, Eq, Structural, Debug)]
pub struct Date {
    days: i32,
}

/// Day count a Unix timestamp falls on: whole days since the Unix epoch
/// (floored, discarding the sub-day remainder), shifted to this library's
/// epoch.
pub open spec fn days_of_timestamp(ts: int) -> int {
    ts / 86400 + 719162
}

/// Unix timestamp of a day count: midnight (UTC) of that day.
pub open spec fn timestamp_of_days(days: int) -> int {
    (days - 719162) * 86400
}

/// Absolute difference of two day counts.
pub open spec fn spec_between(a: int, b: int) -> int {
    if a >= b {
        a - b
    } else {
        b - a
    }
}

/// The field of the date a day count stands for.
pub open spec fn spec_get(days: int, unit: DateUnit) -> int {
    let (y, m, d) = ymd_of_days(days);
    match unit {
        DateUnit::Year => y,
        DateUnit::Month => m,
        DateUnit::Day => d,
    }
}

/// Replacing one field of the date a day count stands for: the new triple
/// must be a valid calendar date in the supported range, else the
/// operation is refused.
pub open spec fn spec_set(days: int, value: int, unit: DateUnit) -> Option<int> {
    let (y, m, d) = ymd_of_days(days);
    let (ny, nm, nd) = match unit {
        DateUnit::Year => (value, m, d),
        DateUnit::Month => (y, value, d),
        DateUnit::Day => (y, m, value),
    };
    if valid_ymd(ny, nm, nd) {
        Some(days_of_ymd(ny, nm, nd))
    } else {
        None
    }
}

/// Adding a signed amount of a unit to the date a day count stands for.
///
/// Days shift the day count directly. Months move along the linearized
/// `year * 12 + (month - 1)` index; years move the year field. In both of
/// the latter the day of month is clamped to the length of the resulting
/// month. The result is refused only when it leaves the supported range.
pub open spec fn spec_apply(days: int, amount: int, unit: DateUnit) -> Option<int> {
    let (y, m, d) = ymd_of_days(days);
    match unit {
        DateUnit::Day => {
            let nd = days + amount;
            if 0 <= nd <= i32::MAX {
                Some(nd)
            } else {
                None
            }
        },
        DateUnit::Month => {
            let idx = y * 12 + (m - 1) + amount;
            if idx < 12 {
                None
            } else {
                let ny = idx / 12;
                let nm = idx % 12 + 1;
                let nd = if d <= days_in_month(ny, nm) {
                    d
                } else {
                    days_in_month(ny, nm)
                };
                if days_of_ymd(ny, nm, nd) <= i32::MAX {
                    Some(days_of_ymd(ny, nm, nd))
                } else {
                    None
                }
            }
        },
        DateUnit::Year => {
            let ny = y + amount;
            if ny < 1 {
                None
            } else {
                let nd = if d <= days_in_month(ny, m) {
                    d
                } else {
                    days_in_month(ny, m)
                };
                if days_of_ymd(ny, m, nd) <= i32::MAX {
                    Some(days_of_ymd(ny, m, nd))
                } else {
                    None
                }
            }
        },
    }
}

/// Law: the distance between two dates does not depend on their order.
pub proof fn lemma_between_symmetric(a: Date, b: Date)
    ensures
        spec_between(a.spec_days(), b.spec_days()) == spec_between(b.spec_days(), a.spec_days()),
{
}

/// Law: day arithmetic shifts the day count by exactly the given amount
/// whenever the result stays in the supported range; the input date itself
/// is a value and is never altered.
pub proof fn lemma_apply_day_shift(days: int, amount: int)
    requires
        0 <= days + amount <= i32::MAX,
    ensures
        spec_apply(days, amount, DateUnit::Day) == Some(days + amount),
{
}

/// Law: day 719162, the epoch of the Unix timestamp scale, is the first of
/// January of 1970.
pub proof fn lemma_unix_epoch_day()
    ensures
        days_of_ymd(1970, 1, 1) == 719162,
{
    lemma_fundamental_div_mod_converse(1969, 4, 492, 1);
    lemma_fundamental_div_mod_converse(1969, 100, 19, 69);
    lemma_fundamental_div_mod_converse(1969, 400, 4, 369);
}

/// Relies on astrolabe's `Date::now`, which reads the system clock, and on
/// its `DateUtilities::timestamp`, which turns that date into the Unix
/// seconds of its midnight (UTC). The clock's value cannot be pinned down,
/// so nothing is promised of the result. `Date::now` panics when the clock
/// stands before the Unix epoch; the library assumes a clock at or after
/// it.
#[verifier::external_body]
fn current_day_seconds() -> i64 {
    astrolabe::DateUtilities::timestamp(&astrolabe::Date::now())
}

impl Date {
    #[verifier::type_invariant]
    spec fn inv(self) -> bool {
        0 <= self.days
    }

    /// The day count this date stands for.
    pub closed spec fn spec_days(self) -> int {
        self.days as int
    }

    /// The current date by the system clock (UTC), truncated to the
    /// containing calendar day.
    pub fn now() -> Date {
        match Date::from_timestamp(current_day_seconds()) {
            Ok(d) => d,
            Err(_) => Date { days: 0 },
        }
    }

    /// Builds the date of a `(year, month, day)` triple; the primary
    /// validity gate for calendar dates.
    pub fn from_ymd(year: i32, month: u32, day: u32) -> (r: Result<Date, DateError>)
        ensures
            valid_ymd(year as int, month as int, day as int) ==> (r matches Ok(d)
                && d.spec_days() == days_of_ymd(year as int, month as int, day as int)),
            !valid_ymd(year as int, month as int, day as int) ==> (r matches Err(e)
                && e is OutOfRange),
    {
        match calendar::days_from_ymd(year, month, day) {
            Ok(n) => {
                proof {
                    lemma_valid_ymd_bounds(year as int, month as int, day as int);
                }
                Ok(Date { days: n })
            },
            Err(e) => Err(e),
        }
    }

    /// Builds the date a Unix timestamp falls on, discarding the sub-day
    /// remainder; refused when the day lies outside the supported range.
    pub fn from_timestamp(timestamp: i64) -> (r: Result<Date, DateError>)
        ensures
            0 <= days_of_timestamp(timestamp as int) <= i32::MAX ==> (r matches Ok(d)
                && d.spec_days() == days_of_timestamp(timestamp as int)),
            !(0 <= days_of_timestamp(timestamp as int) <= i32::MAX) ==> (r matches Err(e)
                && e is OutOfRange),
    {
        if timestamp >= 0 {
            let q: u64 = timestamp as u64 / 86400;
            let days: u64 = q + 719162;
            if days > i32::MAX as u64 {
                return Err(out_of_range("timestamp lies after the supported range"));
            }
            Ok(Date { days: days as i32 })
        } else if timestamp < -62135596800 {
            proof {
                lemma_div_is_ordered(timestamp as int, -62135596801, 86400);
                lemma_fundamental_div_mod_converse(-62135596801, 86400, -719163, 86399);
            }
            Err(out_of_range("timestamp lies before the supported range"))
        } else {
            let neg: u64 = (-timestamp) as u64;
            let q: u64 = neg / 86400;
            let rem: u64 = neg % 86400;
            proof {
                lemma_fundamental_div_mod(neg as int, 86400);
                if rem == 0 {
                    lemma_fundamental_div_mod_converse(
                        timestamp as int,
                        86400,
                        -(q as int),
                        0,
                    );
                } else {
                    lemma_fundamental_div_mod_converse(
                        timestamp as int,
                        86400,
                        -(q as int) - 1,
                        86400 - rem as int,
                    );
                }
            }
            let days: i64 = if rem == 0 {
                719162 - q as i64
            } else {
                719161 - q as i64
            };
            Ok(Date { days: days as i32 })
        }
    }

    /// Builds a date directly from a raw day count, with no validation: a
    /// low-level escape hatch. The caller owes a day count that stands for
    /// a calendar date, that is, one that is not negative.
    pub fn from_days(days: i32) -> (r: Date)
        requires
            0 <= days,
        ensures
            r.spec_days() == days as int,
    {
        Date { days }
    }

    /// The raw day count of this date; never negative.
    pub fn as_days(&self) -> (r: i32)
        ensures
            r as int == self.spec_days(),
            0 <= r,
    {
        proof {
            use_type_invariant(self);
        }
        self.days
    }

    /// The Unix timestamp of this date's midnight (UTC).
    pub fn timestamp(&self) -> (r: i64)
        ensures
            r as int == timestamp_of_days(self.spec_days()),
    {
        proof {
            use_type_invariant(self);
        }
        (self.days as i64 - 719162) * 86400
    }

    /// The number of days between this date and another, regardless of
    /// order; zero when they are equal.
    pub fn between(&self, other: &Date) -> (r: u32)
        ensures
            r as int == spec_between(self.spec_days(), other.spec_days()),
    {
        proof {
            use_type_invariant(self);
            use_type_invariant(other);
        }
        if self.days >= other.days {
            (self.days - other.days) as u32
        } else {
            (other.days - self.days) as u32
        }
    }

    /// Reads one calendar field of this date: the year as a signed year
    /// number, the month as 1 to 12, or the day of month as 1 to 31
    /// bounded by the month.
    pub fn get(&self, unit: DateUnit) -> (r: i32)
        ensures
            r as int == spec_get(self.spec_days(), unit),
    {
        proof {
            use_type_invariant(self);
            lemma_ymd_of_days_valid(self.days as int);
        }
        let (y, m, d) = calendar::ymd_from_days(self.days);
        match unit {
            DateUnit::Year => y,
            DateUnit::Month => m as i32,
            DateUnit::Day => d as i32,
        }
    }

    /// Returns a new date with one field replaced; the input is left
    /// unchanged. The replaced triple is validated as a whole: a day that
    /// does not exist in the new month is refused, never clamped.
    pub fn set(&self, value: i32, unit: DateUnit) -> (r: Result<Date, DateError>)
        ensures
            spec_set(self.spec_days(), value as int, unit) matches Some(nd) ==> (r matches Ok(d)
                && d.spec_days() == nd),
            spec_set(self.spec_days(), value as int, unit) is None ==> (r matches Err(e)
                && e is OutOfRange),
    {
        proof {
            use_type_invariant(self);
            lemma_ymd_of_days_valid(self.days as int);
        }
        let (y, m, d) = calendar::ymd_from_days(self.days);
        let replaced = match unit {
            DateUnit::Year => calendar::days_from_ymd(value, m, d),
            DateUnit::Month => {
                if value < 1 || value > 12 {
                    return Err(out_of_range("month must be between 1 and 12"));
                }
                calendar::days_from_ymd(y, value as u32, d)
            },
            DateUnit::Day => {
                if value < 1 || value > 31 {
                    return Err(
                        out_of_range("day must be between 1 and the length of the month"),
                    );
                }
                calendar::days_from_ymd(y, m, value as u32)
            },
        };
        match replaced {
            Ok(n) => {
                proof {
                    let (ny, nm, nd) = match unit {
                        DateUnit::Year => (value as int, m as int, d as int),
                        DateUnit::Month => (y as int, value as int, d as int),
                        DateUnit::Day => (y as int, m as int, value as int),
                    };
                    lemma_valid_ymd_bounds(ny, nm, nd);
                }
                Ok(Date { days: n })
            },
            Err(e) => Err(e),
        }
    }

    /// Returns a new date a signed amount of the given unit away; the
    /// input is left unchanged. Month and year arithmetic clamp the day of
    /// month to the length of the resulting month; the operation is
    /// refused only when the result leaves the supported range.
    pub fn apply(&self, amount: i32, unit: DateUnit) -> (r: Result<Date, DateError>)
        ensures
            spec_apply(self.spec_days(), amount as int, unit) matches Some(nd) ==> (r matches Ok(
                d,
            ) && d.spec_days() == nd),
            spec_apply(self.spec_days(), amount as int, unit) is None ==> (r matches Err(e)
                && e is OutOfRange),
    {
        proof {
            use_type_invariant(self);
            lemma_ymd_of_days_valid(self.days as int);
        }
        match unit {
            DateUnit::Day => {
                let nd: i64 = self.days as i64 + amount as i64;
                if nd < 0 || nd > i32::MAX as i64 {
                    return Err(out_of_range("day count leaves the supported range"));
                }
                Ok(Date { days: nd as i32 })
            },
            DateUnit::Month => {
                let (y, m, d) = calendar::ymd_from_days(self.days);
                proof {
                    lemma_valid_ymd_bounds(y as int, m as int, d as int);
                }
                let idx: i64 = y as i64 * 12 + (m as i64 - 1) + amount as i64;
                if idx < 12 {
                    return Err(out_of_range("month arithmetic leaves the supported range"));
                }
                proof {
                    lemma_fundamental_div_mod(idx as int, 12);
                }
                let ny: i32 = (idx as u64 / 12) as i32;
                let nm: u32 = (idx as u64 % 12) as u32 + 1;
                let len = calendar::month_length(ny, nm);
                let nd: u32 = if d <= len {
                    d
                } else {
                    len
                };
                match calendar::days_from_ymd(ny, nm, nd) {
                    Ok(n) => {
                        proof {
                            lemma_valid_ymd_bounds(ny as int, nm as int, nd as int);
                        }
                        Ok(Date { days: n })
                    },
                    Err(e) => Err(e),
                }
            },
            DateUnit::Year => {
                let (y, m, d) = calendar::ymd_from_days(self.days);
                proof {
                    lemma_valid_ymd_bounds(y as int, m as int, d as int);
                }
                let ny64: i64 = y as i64 + amount as i64;
                if ny64 < 1 {
                    return Err(out_of_range("year arithmetic leaves the supported range"));
                }
                if ny64 > 5883517 {
                    proof {
                        let dm = days_in_month(ny64 as int, m as int);
                        let ndi = if d as int <= dm {
                            d as int
                        } else {
                            dm
                        };
                        lemma_huge_year_out_of_range(ny64 as int, m as int, ndi);
                    }
                    return Err(out_of_range("year arithmetic leaves the supported range"));
                }
                let ny: i32 = ny64 as i32;
                let len = calendar::month_length(ny, m);
                let nd: u32 = if d <= len {
                    d
                } else {
                    len
                };
                match calendar::days_from_ymd(ny, m, nd) {
                    Ok(n) => {
                        proof {
                            lemma_valid_ymd_bounds(ny as int, m as int, nd as int);
                        }
                        Ok(Date { days: n })
                    },
                    Err(e) => Err(e),
                }
            },
        }
    }
}

} // verus!
