//! Calendar dates and timestamps.
//!
//! A `Date` is a year/month/day triple; `day_number` maps it to a count
//! of days on a proleptic Gregorian scale, which gives the total order
//! used for sorting trades and for the 30-day bed-and-breakfast window.
//! A `DateTime` adds a second-of-day, and `key` flattens the whole
//! timestamp into one integer so that ordering is a plain `<=`.

use vstd::prelude::*;

verus! {

/// A calendar date in the supported range (years 1900 to 9999).
#[derive(Clone, Copy, Debug, PartialEq, Eq, Structural)]
pub struct Date {
    pub year: u32,
    pub month: u32,
    pub day: u32,
}

/// A date with a second-of-day, the trade timestamp resolution.
#[derive(Clone, Copy, Debug, PartialEq, Eq, Structural)]
pub struct DateTime {
    pub date: Date,
    pub secs: u32,
}

/// The day count of a year/month/day triple on a proleptic Gregorian
/// scale (days since 1 March of year 0), computed from 400-year eras.
pub open spec fn spec_day_number(y: int, m: int, d: int) -> int {
    let yy = if m <= 2 {
        y - 1
    } else {
        y
    };
    let era = yy / 400;
    let yoe = yy - era * 400;
    let mp = if m > 2 {
        m - 3
    } else {
        m + 9
    };
    let doy = (153 * mp + 2) / 5 + d - 1;
    let doe = yoe * 365 + yoe / 4 - yoe / 100 + doy;
    era * 146097 + doe
}

impl Date {
    /// Well-formed: fields in range. A day of 29 to 31 is accepted for
    /// every month; the engine only orders dates, it never enumerates
    /// them.
    pub open spec fn wf(self) -> bool {
        &&& 1900 <= self.year <= 9999
        &&& 1 <= self.month <= 12
        &&& 1 <= self.day <= 31
    }

    /// Builds a date, rejecting out-of-range fields.
    pub fn new(year: u32, month: u32, day: u32) -> (r: Option<Date>)
        ensures
            r matches Some(v) ==> v.wf() && v.year == year && v.month == month && v.day == day,
            r is Some <==> (Date { year, month, day }).wf(),
    {
        if 1900 <= year && year <= 9999 && 1 <= month && month <= 12 && 1 <= day && day <= 31 {
            Some(Date { year, month, day })
        } else {
            None
        }
    }

    /// The date's day count; orders dates chronologically.
    pub fn day_number(&self) -> (r: u64)
        requires
            self.wf(),
        ensures
            r == spec_day_number(self.year as int, self.month as int, self.day as int),
    {
        let y: u64 = self.year as u64;
        let m: u64 = self.month as u64;
        let d: u64 = self.day as u64;
        let yy: u64 = if m <= 2 {
            y - 1
        } else {
            y
        };
        let era: u64 = yy / 400;
        let yoe: u64 = yy - era * 400;
        let mp: u64 = if m > 2 {
            m - 3
        } else {
            m + 9
        };
        let doy: u64 = (153 * mp + 2) / 5 + d - 1;
        let doe: u64 = yoe * 365 + yoe / 4 - yoe / 100 + doy;
        era * 146097 + doe
    }
}

impl DateTime {
    /// Well-formed: valid date, second-of-day below 86400.
    pub open spec fn wf(self) -> bool {
        &&& self.date.wf()
        &&& self.secs < 86400
    }

    /// The timestamp's chronological key: day count in seconds plus the
    /// second-of-day. Two timestamps compare exactly as their keys do.
    pub open spec fn spec_key(self) -> int {
        spec_day_number(self.date.year as int, self.date.month as int, self.date.day as int)
            * 86400 + self.secs
    }

    /// Builds a timestamp from a date and a time of day.
    pub fn new(date: Date, hour: u32, minute: u32, second: u32) -> (r: Option<DateTime>)
        requires
            date.wf(),
        ensures
            r matches Some(v) ==> v.wf() && v.date == date && v.secs == hour * 3600 + minute * 60
                + second,
            r is Some <==> hour < 24 && minute < 60 && second < 60,
    {
        if hour < 24 && minute < 60 && second < 60 {
            Some(DateTime { date, secs: hour * 3600 + minute * 60 + second })
        } else {
            None
        }
    }

    /// The chronological key, computed.
    pub fn key(&self) -> (r: u64)
        requires
            self.wf(),
        ensures
            r == self.spec_key(),
            r < 0xf000_0000_0000,
    {
        proof {
            lemma_day_number_range(
                self.date.year as int,
                self.date.month as int,
                self.date.day as int,
            );
        }
        self.date.day_number() * 86400 + self.secs as u64
    }
}

/// For dates in the supported range the day count stays small, so the
/// flattened key fits easily in a `u64` even with headroom for a
/// 30-day shift.
proof fn lemma_day_number_range(y: int, m: int, d: int)
    requires
        1900 <= y <= 9999,
        1 <= m <= 12,
        1 <= d <= 31,
    ensures
        0 < spec_day_number(y, m, d) < 4_000_000,
{
}

} // verus!
