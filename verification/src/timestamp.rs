//! The calendar model: a local date-and-time held as plain fields, with a
//! proleptic-Gregorian day count that gives every timestamp a position on a
//! single linear scale of seconds.

use vstd::prelude::*;

verus! {

/// Years the library represents; generous enough to cover everything the
/// host clock can report.
pub const MIN_YEAR: i32 = -400000;

pub const MAX_YEAR: i32 = 400000;

/// An absolute local date and time, second precision, no timezone offset.
#[derive(Clone, Copy, Debug, PartialEq, Eq, Structural)]
pub struct Timestamp {
    pub year: i32,
    pub month: u32,
    pub day: u32,
    pub hour: u32,
    pub minute: u32,
    pub second: u32,
}

pub open spec fn is_leap_year(y: int) -> bool {
    y % 4 == 0 && (y % 100 != 0 || y % 400 == 0)
}

pub open spec fn spec_days_in_year(y: int) -> int {
    if is_leap_year(y) {
        366
    } else {
        365
    }
}

pub open spec fn spec_days_in_month(y: int, m: int) -> int {
    if m == 2 {
        if is_leap_year(y) {
            29
        } else {
            28
        }
    } else if m == 4 || m == 6 || m == 9 || m == 11 {
        30
    } else {
        31
    }
}

/// Days from January 1, 1970 back to January 1 of year `y` (negative for
/// earlier years).
pub open spec fn days_before_year(y: int) -> int
    decreases (if y >= 1970 { y - 1970 } else { 1970 - y }),
{
    if y == 1970 {
        0
    } else if y > 1970 {
        days_before_year(y - 1) + spec_days_in_year(y - 1)
    } else {
        days_before_year(y + 1) - spec_days_in_year(y)
    }
}

/// Days from January 1 of year `y` to the first day of month `m`.
pub open spec fn days_before_month(y: int, m: int) -> int
    decreases m,
{
    if m <= 1 {
        0
    } else {
        days_before_month(y, m - 1) + spec_days_in_month(y, m - 1)
    }
}

/// Day count of a civil date on the linear scale whose zero is 1970-01-01.
/// Defined for any `d >= 1`, also one past a month's end, so that carrying
/// a day overflow into the next month keeps the count unchanged.
pub open spec fn day_number(y: int, m: int, d: int) -> int {
    days_before_year(y) + days_before_month(y, m) + (d - 1)
}

impl Timestamp {
    pub open spec fn valid(self) -> bool {
        &&& MIN_YEAR <= self.year <= MAX_YEAR
        &&& 1 <= self.month <= 12
        &&& 1 <= self.day <= spec_days_in_month(self.year as int, self.month as int)
        &&& self.hour <= 23
        &&& self.minute <= 59
        &&& self.second <= 59
    }

    /// Seconds since 1970-01-01 00:00:00, the linear scale on which all
    /// comparisons and durations are stated.
    pub open spec fn epoch_sec(self) -> int {
        day_number(self.year as int, self.month as int, self.day as int) * 86400
            + self.hour * 3600 + self.minute * 60 + self.second
    }
}

/// The largest representable instant.
pub open spec fn max_timestamp() -> Timestamp {
    Timestamp { year: MAX_YEAR, month: 12, day: 31, hour: 23, minute: 59, second: 59 }
}

pub open spec fn max_epoch_sec() -> int {
    max_timestamp().epoch_sec()
}

pub proof fn lemma_days_before_year_bounds(y: int)
    ensures
        y >= 1970 ==> 365 * (y - 1970) <= days_before_year(y) <= 366 * (y - 1970),
        y < 1970 ==> -366 * (1970 - y) <= days_before_year(y) <= -365 * (1970 - y),
    decreases (if y >= 1970 { y - 1970 } else { 1970 - y }),
{
    if y > 1970 {
        lemma_days_before_year_bounds(y - 1);
    } else if y < 1970 {
        lemma_days_before_year_bounds(y + 1);
    }
}

pub proof fn lemma_days_before_year_monotone(y1: int, y2: int)
    requires
        y1 < y2,
    ensures
        days_before_year(y1) + 365 * (y2 - y1) <= days_before_year(y2),
    decreases y2 - y1,
{
    if y1 + 1 < y2 {
        lemma_days_before_year_monotone(y1, y2 - 1);
    }
}

pub proof fn lemma_days_before_month_bounds(y: int, m: int)
    requires
        1 <= m <= 13,
    ensures
        28 * (m - 1) <= days_before_month(y, m) <= 31 * (m - 1),
    decreases m,
{
    if m > 1 {
        lemma_days_before_month_bounds(y, m - 1);
    }
}

pub proof fn lemma_days_before_month_monotone(y: int, m1: int, m2: int)
    requires
        m1 < m2,
        1 <= m1,
    ensures
        days_before_month(y, m1) + spec_days_in_month(y, m1) <= days_before_month(y, m2),
    decreases m2 - m1,
{
    if m1 + 1 < m2 {
        lemma_days_before_month_monotone(y, m1 + 1, m2);
    }
}

/// A whole year's months sum to the year's day count.
pub proof fn lemma_days_before_month_13(y: int)
    ensures
        days_before_month(y, 13) == spec_days_in_year(y),
{
    reveal_with_fuel(days_before_month, 13);
}

/// Every valid timestamp sits at or below the top of the representable scale.
pub proof fn lemma_epoch_sec_le_max(ts: Timestamp)
    requires
        ts.valid(),
    ensures
        ts.epoch_sec() <= max_epoch_sec(),
{
    let y = ts.year as int;
    let m = ts.month as int;
    let d = ts.day as int;
    lemma_days_before_month_13(y);
    if m < 13 {
        lemma_days_before_month_monotone(y, m, 13);
    }
    assert(days_before_month(y, m) + d - 1 <= spec_days_in_year(y) - 1);
    lemma_days_before_month_13(MAX_YEAR as int);
    lemma_days_before_month_monotone(MAX_YEAR as int, 12, 13);
    if y < MAX_YEAR {
        lemma_days_before_year_monotone(y, MAX_YEAR as int);
        assert(days_before_year(y) + spec_days_in_year(y) == days_before_year(y + 1));
        if y + 1 < MAX_YEAR {
            lemma_days_before_year_monotone(y + 1, MAX_YEAR as int);
        }
    }
}

/// A position on the linear scale names at most one valid timestamp.
pub proof fn lemma_epoch_sec_injective(a: Timestamp, b: Timestamp)
    requires
        a.valid(),
        b.valid(),
        a.epoch_sec() == b.epoch_sec(),
    ensures
        a == b,
{
    let ya = a.year as int;
    let yb = b.year as int;
    let dna = day_number(ya, a.month as int, a.day as int);
    let dnb = day_number(yb, b.month as int, b.day as int);
    let toda = a.hour * 3600 + a.minute * 60 + a.second;
    let todb = b.hour * 3600 + b.minute * 60 + b.second;
    assert(0 <= toda < 86400);
    assert(0 <= todb < 86400);
    assert(dna == dnb && toda == todb) by {
        assert(dna * 86400 + toda == dnb * 86400 + todb);
        assert((dna - dnb) * 86400 == todb - toda) by (nonlinear_arith)
            requires dna * 86400 + toda == dnb * 86400 + todb,
        ;
    }
    assert(a.hour == b.hour && a.minute == b.minute && a.second == b.second) by {
        assert((a.hour - b.hour) * 3600 == (b.minute - a.minute) * 60 + (b.second - a.second))
            by (nonlinear_arith)
            requires a.hour * 3600 + a.minute * 60 + a.second == b.hour * 3600 + b.minute * 60
                + b.second,
        ;
    }
    // The date parts: a later year, or a later month in the same year,
    // always yields a strictly larger day number.
    assert forall|y1: int, m1: int, d1: int, y2: int, m2: int, d2: int|
        {
            &&& 1 <= m1 <= 12 && 1 <= d1 <= spec_days_in_month(y1, m1)
            &&& 1 <= m2 <= 12 && 1 <= d2 <= spec_days_in_month(y2, m2)
            &&& (y1 < y2 || (y1 == y2 && m1 < m2))
        } implies day_number(y1, m1, d1) < day_number(y2, m2, d2) by {
        if y1 < y2 {
            lemma_days_before_month_13(y1);
            if m1 < 13 {
                lemma_days_before_month_monotone(y1, m1, 13);
            }
            assert(days_before_year(y1) + spec_days_in_year(y1) == days_before_year(y1 + 1));
            if y1 + 1 < y2 {
                lemma_days_before_year_monotone(y1 + 1, y2);
            }
            lemma_days_before_month_bounds(y2, m2);
        } else {
            lemma_days_before_month_monotone(y1, m1, m2);
        }
    }
    assert(a.year == b.year && a.month == b.month && a.day == b.day);
}

/// Concrete magnitude bounds, used to rule out arithmetic overflow.
pub proof fn lemma_epoch_sec_bounds(ts: Timestamp)
    requires
        ts.valid(),
    ensures
        -13_000_000_000_000 <= ts.epoch_sec() <= 13_000_000_000_000,
        max_epoch_sec() <= 13_000_000_000_000,
{
    let y = ts.year as int;
    let m = ts.month as int;
    let d = ts.day as int;
    lemma_days_before_year_bounds(y);
    lemma_days_before_month_bounds(y, m);
    lemma_days_before_year_bounds(MAX_YEAR as int);
    lemma_days_before_month_bounds(MAX_YEAR as int, 12);
}

fn is_leap(year: i32) -> (r: bool)
    requires
        MIN_YEAR <= year <= MAX_YEAR,
    ensures
        r == is_leap_year(year as int),
{
    // Shift by a positive multiple of 400 so every remainder is taken of a
    // non-negative number.
    let yy: u32 = (year + 400000) as u32;
    proof {
        assert((yy as int) % 4 == (year as int) % 4) by (nonlinear_arith)
            requires yy == year + 400000,
        ;
        assert((yy as int) % 100 == (year as int) % 100) by (nonlinear_arith)
            requires yy == year + 400000,
        ;
        assert((yy as int) % 400 == (year as int) % 400) by (nonlinear_arith)
            requires yy == year + 400000,
        ;
    }
    yy % 4 == 0 && (yy % 100 != 0 || yy % 400 == 0)
}

pub fn days_in_month(year: i32, month: u32) -> (r: u32)
    requires
        MIN_YEAR <= year <= MAX_YEAR,
        1 <= month <= 12,
    ensures
        r == spec_days_in_month(year as int, month as int),
        28 <= r <= 31,
{
    if month == 2 {
        if is_leap(year) {
            29
        } else {
            28
        }
    } else if month == 4 || month == 6 || month == 9 || month == 11 {
        30
    } else {
        31
    }
}

fn days_in_year(year: i32) -> (r: u32)
    requires
        MIN_YEAR <= year <= MAX_YEAR,
    ensures
        r == spec_days_in_year(year as int),
{
    if is_leap(year) {
        366
    } else {
        365
    }
}

fn day_number_exec(year: i32, month: u32, day: u32) -> (r: i64)
    requires
        MIN_YEAR <= year <= MAX_YEAR,
        1 <= month <= 12,
        1 <= day <= 31,
    ensures
        r == day_number(year as int, month as int, day as int),
{
    let mut acc: i64 = 0;
    let mut y: i32 = 1970;
    if year >= 1970 {
        while y < year
            invariant
                1970 <= y <= year,
                year <= MAX_YEAR,
                acc == days_before_year(y as int),
                0 <= acc <= 366 * (y - 1970),
            decreases year - y,
        {
            acc = acc + days_in_year(y) as i64;
            y = y + 1;
        }
    } else {
        while y > year
            invariant
                year <= y <= 1970,
                MIN_YEAR <= year,
                acc == days_before_year(y as int),
                -366 * (1970 - y) <= acc <= 0,
            decreases y - year,
        {
            let delta = days_in_year(y - 1);
            acc = acc - delta as i64;
            y = y - 1;
        }
    }
    let mut m: u32 = 1;
    let mut macc: i64 = 0;
    while m < month
        invariant
            1 <= m <= month <= 12,
            MIN_YEAR <= year <= MAX_YEAR,
            macc == days_before_month(year as int, m as int),
            0 <= macc <= 31 * (m - 1),
        decreases month - m,
    {
        macc = macc + days_in_month(year, m) as i64;
        m = m + 1;
    }
    acc + macc + (day as i64) - 1
}

impl Timestamp {
    /// Builds a timestamp, accepting exactly the field combinations that name
    /// a real calendar date and time of day.
    pub fn new(year: i32, month: u32, day: u32, hour: u32, minute: u32, second: u32) -> (r:
        Option<Timestamp>)
        ensures
            match r {
                Some(t) => {
                    &&& t == (Timestamp { year, month, day, hour, minute, second })
                    &&& t.valid()
                },
                None => !(Timestamp { year, month, day, hour, minute, second }).valid(),
            },
    {
        if MIN_YEAR <= year && year <= MAX_YEAR && 1 <= month && month <= 12 && 1 <= day && day
            <= days_in_month(year, month) && hour <= 23 && minute <= 59 && second <= 59 {
            Some(Timestamp { year, month, day, hour, minute, second })
        } else {
            None
        }
    }

    /// The timestamp's position on the linear scale of seconds.
    pub fn epoch_seconds(&self) -> (r: i64)
        requires
            self.valid(),
        ensures
            r == self.epoch_sec(),
    {
        proof {
            lemma_epoch_sec_bounds(*self);
            lemma_days_before_year_bounds(self.year as int);
            lemma_days_before_month_bounds(self.year as int, self.month as int);
        }
        let days = day_number_exec(self.year, self.month, self.day);
        days * 86400 + (self.hour as i64) * 3600 + (self.minute as i64) * 60 + (
        self.second as i64)
    }

    /// Calendar-aware addition of whole minutes: minutes carry into hours,
    /// hours into days, and day overflow walks forward month by month.
    /// `None` exactly when the sum leaves the representable range.
    pub fn plus_minutes(&self, mins: u64) -> (r: Option<Timestamp>)
        requires
            self.valid(),
        ensures
            (r is Some) <==> self.epoch_sec() + 60 * (mins as int) <= max_epoch_sec(),
            r matches Some(t) ==> {
                &&& t.valid()
                &&& t.epoch_sec() == self.epoch_sec() + 60 * (mins as int)
                &&& t.second == self.second
            },
    {
        proof {
            lemma_epoch_sec_bounds(*self);
        }
        if mins > 500_000_000_000 {
            // More minutes than the whole representable span holds.
            return None;
        }
        let total_min: u64 = self.minute as u64 + mins;
        let minute_new: u32 = (total_min % 60) as u32;
        let carry_h: u64 = total_min / 60;
        let total_h: u64 = self.hour as u64 + carry_h;
        let hour_new: u32 = (total_h % 24) as u32;
        let carry_d: u64 = total_h / 24;
        let mut d: u64 = self.day as u64 + carry_d;
        let mut y: i32 = self.year;
        let mut mo: u32 = self.month;
        let ghost target = self.epoch_sec() + 60 * (mins as int);
        proof {
            assert(day_number(y as int, mo as int, d as int) == day_number(
                self.year as int,
                self.month as int,
                self.day as int,
            ) + carry_d);
        }
        while d > days_in_month(y, mo) as u64
            invariant
                MIN_YEAR <= y <= MAX_YEAR,
                1 <= mo <= 12,
                1 <= d <= 500_000_000_000,
                hour_new <= 23,
                minute_new <= 59,
                self.second <= 59,
                target == day_number(y as int, mo as int, d as int) * 86400 + hour_new * 3600
                    + minute_new * 60 + self.second,
                target == self.epoch_sec() + 60 * (mins as int),
            decreases d,
        {
            let dim = days_in_month(y, mo);
            if mo == 12 {
                if y == MAX_YEAR {
                    proof {
                        // One day past December 31 of the top year is already
                        // beyond the scale.
                        assert(day_number(y as int, 12, d as int) >= day_number(
                            y as int,
                            12,
                            31,
                        ) + 1);
                    }
                    return None;
                }
                proof {
                    lemma_days_before_month_13(y as int);
                }
                d = d - dim as u64;
                mo = 1;
                y = y + 1;
            } else {
                d = d - dim as u64;
                mo = mo + 1;
            }
        }
        let result = Timestamp {
            year: y,
            month: mo,
            day: d as u32,
            hour: hour_new,
            minute: minute_new,
            second: self.second,
        };
        proof {
            lemma_epoch_sec_le_max(result);
        }
        Some(result)
    }

    /// Whether `self` is at or before `other` on the linear scale.
    pub fn le(&self, other: &Timestamp) -> (r: bool)
        requires
            self.valid(),
            other.valid(),
        ensures
            r == (self.epoch_sec() <= other.epoch_sec()),
    {
        self.epoch_seconds() <= other.epoch_seconds()
    }
}

} // verus!
