//! Calendar dates in the proleptic Gregorian calendar, held as plain
//! year/month/day values, with day counting, weekday computation, and the
//! midnight-UTC epoch timestamp that the store persists.

use vstd::prelude::*;

verus! {

/// A calendar date (no time component). Valid dates lie between year 0 and
/// year 9999, the range the title grammar can produce.
#[derive(Clone, Copy, Debug, PartialEq, Eq, Structural, Hash)]
pub struct Date {
    pub year: u32,
    pub month: u32,
    pub day: u32,
}

pub open spec fn is_leap_year(y: int) -> bool {
    y % 4 == 0 && (y % 100 != 0 || y % 400 == 0)
}

pub open spec fn days_in_month(y: int, m: int) -> int {
    if m == 2 {
        if is_leap_year(y) {
            29
        } else {
            28
        }
    } else if m == 4 || m == 6 || m == 9 || m == 11 {
        30
    } else {
        31
    }
}

pub open spec fn valid_date(y: int, m: int, d: int) -> bool {
    0 <= y <= 9999 && 1 <= m <= 12 && 1 <= d <= days_in_month(y, m)
}

pub open spec fn days_in_year(y: int) -> int {
    if is_leap_year(y) {
        366
    } else {
        365
    }
}

/// Days in all years before year `y`, counting from year 0.
pub open spec fn days_before_year(y: nat) -> int
    decreases y,
{
    if y == 0 {
        0
    } else {
        days_before_year((y - 1) as nat) + days_in_year(y - 1)
    }
}

/// Days in the months of year `y` that precede month `m`.
pub open spec fn days_before_month(y: int, m: nat) -> int
    decreases m,
{
    if m <= 1 {
        0
    } else {
        days_before_month(y, (m - 1) as nat) + days_in_month(y, (m - 1) as int)
    }
}

/// Days from 0000-01-01 to the given date.
pub open spec fn day_number(y: int, m: int, d: int) -> int {
    days_before_year(y as nat) + days_before_month(y, m as nat) + d - 1
}

/// Days from the Unix epoch (1970-01-01) to the given date.
pub open spec fn epoch_day(y: int, m: int, d: int) -> int {
    day_number(y, m, d) - day_number(1970, 1, 1)
}

/// Day of the week, with 0 = Sunday through 6 = Saturday.
/// The offset 6 anchors 0000-01-01, day number zero, on a Saturday.
pub open spec fn weekday_number(y: int, m: int, d: int) -> int {
    (day_number(y, m, d) + 6) % 7
}

pub fn leap_year(y: u32) -> (b: bool)
    ensures
        b == is_leap_year(y as int),
{
    y % 4 == 0 && (y % 100 != 0 || y % 400 == 0)
}

pub fn month_length(y: u32, m: u32) -> (r: u32)
    requires
        1 <= m <= 12,
    ensures
        r == days_in_month(y as int, m as int),
{
    if m == 2 {
        if leap_year(y) {
            29
        } else {
            28
        }
    } else if m == 4 || m == 6 || m == 9 || m == 11 {
        30
    } else {
        31
    }
}

fn days_before_year_exec(y: u32) -> (r: u32)
    requires
        y <= 10000,
    ensures
        r == days_before_year(y as nat),
        r <= 366 * y,
{
    let mut acc: u32 = 0;
    let mut i: u32 = 0;
    while i < y
        invariant
            i <= y <= 10000,
            acc == days_before_year(i as nat),
            acc <= 366 * i,
        decreases y - i,
    {
        if leap_year(i) {
            acc = acc + 366;
        } else {
            acc = acc + 365;
        }
        i = i + 1;
    }
    acc
}

fn days_before_month_exec(y: u32, m: u32) -> (r: u32)
    requires
        1 <= m <= 12,
    ensures
        r == days_before_month(y as int, m as nat),
        r <= 31 * m,
{
    let mut acc: u32 = 0;
    let mut i: u32 = 1;
    while i < m
        invariant
            1 <= i <= m <= 12,
            acc == days_before_month(y as int, i as nat),
            acc <= 31 * i,
        decreases m - i,
    {
        acc = acc + month_length(y, i);
        i = i + 1;
    }
    acc
}

impl Date {
    pub open spec fn valid(self) -> bool {
        valid_date(self.year as int, self.month as int, self.day as int)
    }

    /// The date's timestamp: seconds from the Unix epoch to midnight UTC of
    /// this date.
    pub open spec fn spec_timestamp(self) -> int {
        86400 * epoch_day(self.year as int, self.month as int, self.day as int)
    }

    /// Builds a date after checking the calendar bounds; `None` exactly when
    /// the components do not name a real date in years 0 through 9999.
    pub fn from_ymd_opt(year: u32, month: u32, day: u32) -> (r: Option<Date>)
        ensures
            match r {
                Some(d) => valid_date(year as int, month as int, day as int) && d == (Date {
                    year,
                    month,
                    day,
                }),
                None => !valid_date(year as int, month as int, day as int),
            },
    {
        if year <= 9999 && 1 <= month && month <= 12 && 1 <= day && day <= month_length(
            year,
            month,
        ) {
            Some(Date { year, month, day })
        } else {
            None
        }
    }

    fn day_number_exec(self) -> (r: u32)
        requires
            self.valid(),
        ensures
            r == day_number(self.year as int, self.month as int, self.day as int),
            r <= 3660000 + 372 + 31,
    {
        days_before_year_exec(self.year) + days_before_month_exec(self.year, self.month)
            + (self.day - 1)
    }

    /// Day of the week, 0 = Sunday through 6 = Saturday.
    pub fn weekday(self) -> (r: u32)
        requires
            self.valid(),
        ensures
            r == weekday_number(self.year as int, self.month as int, self.day as int),
            r < 7,
    {
        (self.day_number_exec() + 6) % 7
    }

    /// Seconds from the Unix epoch to midnight UTC of this date, the form in
    /// which the store keeps puzzle dates.
    pub fn timestamp(self) -> (r: i64)
        requires
            self.valid(),
        ensures
            r == self.spec_timestamp(),
    {
        let dn = self.day_number_exec() as i64;
        let epoch = Date { year: 1970, month: 1, day: 1 };
        assert(epoch.valid());
        let ep = epoch.day_number_exec() as i64;
        (dn - ep) * 86400
    }
}

} // verus!
