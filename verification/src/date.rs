//! Calendar dates as signed day counts.

use crate::calendar::{
    civil_to_days, days_to_civil, lemma_days_to_civil, lemma_era_days, lemma_year_in_era,
    valid_ymd,
};
use core::time::Duration;
use vstd::prelude::*;

verus! {

/// Seconds in one day.
pub const SECONDS_IN_DAY: u64 = 86400;

/// A calendar date, held as the number of days since 1970-01-01.
///
/// Dates are ordered as their day counts are.
#[derive(Clone, Copy, Debug, PartialEq, Eq, Hash, PartialOrd, Ord, Structural)]
pub struct Date(pub isize);

/// The date cannot be represented in the other date format.
#[derive(Clone, Copy, Debug, PartialEq, Eq, Structural)]
pub struct DateConversionError;

impl DateConversionError {
    /// What went wrong, in words.
    pub fn message(&self) -> (r: &'static str)
        ensures
            r@ == "Date is too large for conversion"@,
    {
        "Date is too large for conversion"
    }
}

/// Day number of 1970-01-01 where day 1 is 0001-01-01.
pub const EPOCH_DAYS_FROM_CE: i32 = 719163;

/// Julian day number of 1970-01-01.
pub const EPOCH_JULIAN_DAY: i32 = 2440588;

/// The duration that `Duration::from_secs` makes of a number of seconds.
pub uninterp spec fn duration_from_secs(secs: u64) -> Duration;

/// `Duration::from_secs`: a duration of `secs` whole seconds. The duration
/// is a function of `secs` alone; nothing else is claimed of it.
#[verifier::external_body]
pub(crate) fn whole_seconds(secs: u64) -> (d: Duration)
    ensures
        d == duration_from_secs(secs),
{
    Duration::from_secs(secs)
}

/// The text that `format!` makes of a year, a month and a day after the
/// pattern `Date({year:04}-{month:02}-{day:02})`.
pub uninterp spec fn date_text(year: int, month: int, day: int) -> Seq<char>;

/// `format!`: a year, a month and a day as the text `Date(YYYY-MM-DD)`,
/// the year in four digits at least. The text is a function of the three
/// numbers alone; nothing else is claimed of it.
#[verifier::external_body]
fn format_ymd(year: isize, month: u8, day: u8) -> (r: String)
    ensures
        r@ == date_text(year as int, month as int, day as int),
{
    format!("Date({year:04}-{month:02}-{day:02})")
}

/// Floor division by a positive divisor.
fn div_floor(a: i128, b: i128) -> (q: i128)
    requires
        b > 0,
    ensures
        q == a / b,
{
    proof {
        vstd::arithmetic::div_mod::lemma_fundamental_div_mod(a as int, b as int);
        assert(-(i128::MAX as int) - 1 <= a / b <= i128::MAX) by (nonlinear_arith)
            requires
                b > 0,
                a == b * (a / b) + a % b,
                0 <= a % b < b,
                -(i128::MAX as int) - 1 <= a <= i128::MAX,
        ;
    }
    match a.checked_div_euclid(b) {
        Some(q) => q,
        None => 0,
    }
}

impl Date {
    /// The date of day `day` of month `month` of year `year`.
    ///
    /// The day is not held against the length of the month: a day past the
    /// end of its month counts into the next one.
    pub fn from_ymd(year: isize, month: u8, day: u8) -> (r: Date)
        requires
            1 <= month <= 12,
            1 <= day <= 31,
            isize::MIN <= civil_to_days(year as int, month as int, day as int) <= isize::MAX,
        ensures
            r.0 == civil_to_days(year as int, month as int, day as int),
    {
        Date(Self::count_days(year, month, day) as isize)
    }

    /// The date of day `day` of month `month` of year `year`, where the
    /// month is a month, the day is at most 31, and the date fits a
    /// machine word.
    pub fn checked_from_ymd(year: isize, month: u8, day: u8) -> (r: Option<Date>)
        ensures
            r is Some <==> 1 <= month <= 12 && 1 <= day <= 31 && isize::MIN <= civil_to_days(
                year as int,
                month as int,
                day as int,
            ) <= isize::MAX,
            r matches Some(date) ==> date.0 == civil_to_days(
                year as int,
                month as int,
                day as int,
            ),
    {
        if month < 1 || month > 12 || day < 1 || day > 31 {
            return None;
        }
        let days = Self::count_days(year, month, day);
        if days < isize::MIN as i128 || days > isize::MAX as i128 {
            None
        } else {
            Some(Date(days as isize))
        }
    }

    /// The days from 1970-01-01 to day `day` of month `month` of year
    /// `year`, by the era-based formula.
    fn count_days(year: isize, month: u8, day: u8) -> (days: i128)
        requires
            1 <= month <= 12,
            1 <= day <= 31,
        ensures
            days == civil_to_days(year as int, month as int, day as int),
    {
        let m: i128 = month as i128;
        let d: i128 = day as i128;
        let y: i128 = if m <= 2 {
            year as i128 - 1
        } else {
            year as i128
        };
        let era: i128 = div_floor(y, 400);
        let year_of_era: i128 = y - era * 400;
        let month_part: i128 = if m > 2 {
            m - 3
        } else {
            m + 9
        };
        let day_of_year: i128 = (153 * month_part + 2) / 5 + d - 1;
        let day_of_era: i128 = 365 * year_of_era + year_of_era / 4 - year_of_era / 100
            + day_of_year;
        proof {
            lemma_era_days(year as int, month as int, day as int);
        }
        era * 146097 + day_of_era - 719468
    }

    /// The first of January of year `year`.
    pub fn from_year(year: isize) -> (r: Date)
        requires
            isize::MIN <= civil_to_days(year as int, 1, 1) <= isize::MAX,
        ensures
            r.0 == civil_to_days(year as int, 1, 1),
    {
        Date::from_ymd(year, 1, 1)
    }

    /// Year, month and day of the date.
    pub fn ymd(&self) -> (r: (isize, u8, u8))
        ensures
            (r.0 as int, r.1 as int, r.2 as int) == days_to_civil(self.0 as int),
            valid_ymd(r.0 as int, r.1 as int, r.2 as int),
            civil_to_days(r.0 as int, r.1 as int, r.2 as int) == self.0,
    {
        let shifted: i128 = self.0 as i128 + 719468;
        let era: i128 = div_floor(shifted, 146097);
        let day_of_era: i128 = shifted - era * 146097;
        let year_of_era: i128 = (day_of_era - day_of_era / 1460 + day_of_era / 36524 - day_of_era
            / 146096) / 365;
        proof {
            reveal(days_to_civil);
            lemma_year_in_era(day_of_era as int);
            lemma_days_to_civil(self.0 as int);
        }
        let day_of_year: i128 = day_of_era - (365 * year_of_era + year_of_era / 4 - year_of_era
            / 100);
        let month_part: i128 = (5 * day_of_year + 2) / 153;
        let day: i128 = day_of_year - (153 * month_part + 2) / 5 + 1;
        let month: i128 = if month_part < 10 {
            month_part + 3
        } else {
            month_part - 9
        };
        let year: i128 = if month <= 2 {
            year_of_era + era * 400 + 1
        } else {
            year_of_era + era * 400
        };
        (year as isize, month as u8, day as u8)
    }

    /// The date as text for a log or a message: `Date(YYYY-MM-DD)`, of the
    /// year, the month and the day of the date.
    pub fn to_debug_string(&self) -> (r: String)
        ensures
            r@ == date_text(
                days_to_civil(self.0 as int).0,
                days_to_civil(self.0 as int).1,
                days_to_civil(self.0 as int).2,
            ),
    {
        let (year, month, day) = self.ymd();
        format_ymd(year, month, day)
    }

    /// Day of the month, from 1.
    pub fn day(&self) -> (d: u8)
        ensures
            d == days_to_civil(self.0 as int).2,
    {
        self.ymd().2
    }

    /// Month of the year, from 1.
    pub fn month(&self) -> (m: u8)
        ensures
            m == days_to_civil(self.0 as int).1,
    {
        self.ymd().1
    }

    /// Year of the date.
    pub fn year(&self) -> (y: isize)
        ensures
            y == days_to_civil(self.0 as int).0,
    {
        self.ymd().0
    }

    /// Distance in days to `other`: `Ok` when `self` lies after `other`,
    /// `Err` when it lies before or on it.
    pub fn days_since(&self, other: &Date) -> (r: Result<usize, usize>)
        ensures
            self.0 > other.0 ==> r == Ok::<usize, usize>((self.0 - other.0) as usize),
            self.0 <= other.0 ==> r == Err::<usize, usize>((other.0 - self.0) as usize),
            r matches Ok(days) ==> days == self.0 - other.0,
            r matches Err(days) ==> days == other.0 - self.0,
    {
        if self.0 > other.0 {
            Ok((self.0 as i128 - other.0 as i128) as usize)
        } else {
            Err((other.0 as i128 - self.0 as i128) as usize)
        }
    }

    /// Distance in whole seconds to `other`, with the direction of
    /// [`Date::days_since`].
    pub fn seconds_since(&self, other: &Date) -> (r: Result<u64, u64>)
        requires
            (self.0 - other.0) * 86400 <= u64::MAX,
            (other.0 - self.0) * 86400 <= u64::MAX,
        ensures
            self.0 > other.0 ==> r == Ok::<u64, u64>(((self.0 - other.0) * 86400) as u64),
            self.0 <= other.0 ==> r == Err::<u64, u64>(((other.0 - self.0) * 86400) as u64),
    {
        match self.days_since(other) {
            Ok(days) => Ok(SECONDS_IN_DAY * (days as u64)),
            Err(days) => Err(SECONDS_IN_DAY * (days as u64)),
        }
    }

    /// Distance to `other` as a duration, with the direction of
    /// [`Date::days_since`].
    pub fn duration_since(&self, other: &Date) -> (r: Result<Duration, Duration>)
        requires
            (self.0 - other.0) * 86400 <= u64::MAX,
            (other.0 - self.0) * 86400 <= u64::MAX,
        ensures
            self.0 > other.0 ==> r == Ok::<Duration, Duration>(
                duration_from_secs(((self.0 - other.0) * 86400) as u64),
            ),
            self.0 <= other.0 ==> r == Err::<Duration, Duration>(
                duration_from_secs(((other.0 - self.0) * 86400) as u64),
            ),
    {
        match self.seconds_since(other) {
            Ok(secs) => Ok(whole_seconds(secs)),
            Err(secs) => Err(whole_seconds(secs)),
        }
    }

    /// The date as whole seconds between it and 1970-01-01, with the
    /// direction: `Ok` for a date on or after 1970-01-01, `Err` for one
    /// before it. Fails where the seconds do not fit 64 bits.
    pub fn to_unix_seconds(&self) -> (r: Result<Result<u64, u64>, DateConversionError>)
        ensures
            r is Ok <==> -(u64::MAX / 86400) <= self.0 <= u64::MAX / 86400,
            r matches Ok(Ok(secs)) ==> self.0 >= 0 && secs == self.0 * 86400,
            r matches Ok(Err(secs)) ==> self.0 < 0 && secs == -self.0 * 86400,
    {
        let days: i128 = self.0 as i128;
        let limit: i128 = (u64::MAX / SECONDS_IN_DAY) as i128;
        if days > limit || days < -limit {
            Err(DateConversionError)
        } else if days >= 0 {
            Ok(Ok((days * 86400) as u64))
        } else {
            Ok(Err((-days * 86400) as u64))
        }
    }

    /// The date that lies as many days after 1970-01-01 as `secs` seconds
    /// hold whole days, or as many days before it where `before` holds;
    /// the seconds beyond whole days are dropped. Fails where the day count
    /// does not fit a machine word.
    pub fn from_unix_seconds(secs: u64, before: bool) -> (r: Result<Date, DateConversionError>)
        ensures
            r is Ok <==> secs / 86400 <= isize::MAX,
            r matches Ok(date) ==> date.0 == if before {
                -(secs / 86400)
            } else {
                (secs / 86400) as int
            },
    {
        let days: u64 = secs / SECONDS_IN_DAY;
        if days as u128 > isize::MAX as u128 {
            Err(DateConversionError)
        } else if before {
            Ok(Date((-(days as i128)) as isize))
        } else {
            Ok(Date(days as isize))
        }
    }

    /// The date as a day count in which day 1 is 0001-01-01. Fails where
    /// the count does not fit 32 bits.
    pub fn to_days_from_ce(&self) -> (r: Result<i32, DateConversionError>)
        ensures
            r is Ok <==> i32::MIN <= self.0 + 719163 <= i32::MAX,
            r matches Ok(days) ==> days == self.0 + 719163,
    {
        let days: i128 = self.0 as i128 + EPOCH_DAYS_FROM_CE as i128;
        if days < i32::MIN as i128 || days > i32::MAX as i128 {
            Err(DateConversionError)
        } else {
            Ok(days as i32)
        }
    }

    /// The date of a day count in which day 1 is 0001-01-01. Fails where
    /// the date does not fit a machine word.
    pub fn from_days_from_ce(days: i32) -> (r: Result<Date, DateConversionError>)
        ensures
            r is Ok <==> isize::MIN <= days - 719163 <= isize::MAX,
            r matches Ok(date) ==> date.0 == days - 719163,
    {
        let day: i128 = days as i128 - EPOCH_DAYS_FROM_CE as i128;
        if day < isize::MIN as i128 || day > isize::MAX as i128 {
            Err(DateConversionError)
        } else {
            Ok(Date(day as isize))
        }
    }

    /// The date as a Julian day number. Fails where the number does not
    /// fit 32 bits.
    pub fn to_julian_day(&self) -> (r: Result<i32, DateConversionError>)
        ensures
            r is Ok <==> i32::MIN <= self.0 + 2440588 <= i32::MAX,
            r matches Ok(day) ==> day == self.0 + 2440588,
    {
        let day: i128 = self.0 as i128 + EPOCH_JULIAN_DAY as i128;
        if day < i32::MIN as i128 || day > i32::MAX as i128 {
            Err(DateConversionError)
        } else {
            Ok(day as i32)
        }
    }

    /// The date of a Julian day number. Fails where the date does not fit
    /// a machine word.
    pub fn from_julian_day(day: i32) -> (r: Result<Date, DateConversionError>)
        ensures
            r is Ok <==> isize::MIN <= day - 2440588 <= isize::MAX,
            r matches Ok(date) ==> date.0 == day - 2440588,
    {
        let days: i128 = day as i128 - EPOCH_JULIAN_DAY as i128;
        if days < isize::MIN as i128 || days > isize::MAX as i128 {
            Err(DateConversionError)
        } else {
            Ok(Date(days as isize))
        }
    }
}

} // verus!
