//! Dates of the system clock, of `chrono` and of `time`, made from dates
//! of the engine and turned into them.

use crate::date::{whole_seconds, Date, DateConversionError};
use core::time::Duration;
use std::time::{SystemTime, SystemTimeError};
use vstd::prelude::*;

verus! {

/// The date that `chrono::NaiveDate::from_num_days_from_ce_opt` makes of a
/// day count in which day 1 is 0001-01-01; `None` where `chrono` has no
/// such date.
pub uninterp spec fn naive_date_of_days(days: i32) -> Option<chrono::NaiveDate>;

/// The time that `time::OffsetDateTime::from_unix_timestamp` makes of a
/// number of seconds since 1970-01-01 00:00:00 UTC; `None` where `time`
/// has no such time.
pub uninterp spec fn offset_date_time_of_timestamp(secs: i64) -> Option<time::OffsetDateTime>;

/// `SystemTime::checked_add` on the epoch of the system clock: the time
/// that lies `after` after 1970-01-01 00:00:00 UTC, where the clock of the
/// machine can hold it.
#[verifier::external_body]
fn epoch_plus(after: Duration) -> Option<SystemTime> {
    SystemTime::UNIX_EPOCH.checked_add(after)
}

/// `SystemTime::checked_sub` on the epoch of the system clock: the time
/// that lies `before` before 1970-01-01 00:00:00 UTC, where the clock of
/// the machine can hold it.
#[verifier::external_body]
fn epoch_minus(before: Duration) -> Option<SystemTime> {
    SystemTime::UNIX_EPOCH.checked_sub(before)
}

/// `SystemTime::duration_since` the epoch of the system clock: `Ok` with
/// the distance for a time on or after the epoch, `Err` for a time before
/// it.
#[verifier::external_body]
fn since_epoch(time: &SystemTime) -> Result<Duration, SystemTimeError> {
    time.duration_since(SystemTime::UNIX_EPOCH)
}

/// `SystemTimeError::duration`: how far before the other time the time
/// lies that `SystemTime::duration_since` was asked about.
#[verifier::external_body]
fn distance_before(error: &SystemTimeError) -> Duration {
    error.duration()
}

/// `Duration::as_secs`: the whole seconds of a duration.
#[verifier::external_body]
fn seconds_of(duration: &Duration) -> u64 {
    duration.as_secs()
}

/// `chrono::NaiveDate::from_num_days_from_ce_opt`. The date is a function
/// of the day count alone; nothing else is claimed of it.
#[verifier::external_body]
fn naive_from_days(days: i32) -> (r: Option<chrono::NaiveDate>)
    ensures
        r == naive_date_of_days(days),
{
    chrono::NaiveDate::from_num_days_from_ce_opt(days)
}

/// `chrono::Datelike::num_days_from_ce`: the day count of a date, in which
/// day 1 is 0001-01-01. It is the count, and the only one, of which
/// `chrono::NaiveDate::from_num_days_from_ce_opt` makes the date again:
/// both count the days of the same calendar from the same day.
#[verifier::external_body]
fn naive_to_days(date: &chrono::NaiveDate) -> (r: i32)
    ensures
        naive_date_of_days(r) == Some(*date),
        forall|days: i32| #[trigger] naive_date_of_days(days) == Some(*date) ==> r == days,
{
    chrono::Datelike::num_days_from_ce(date)
}

/// `time::OffsetDateTime::from_unix_timestamp`. The time is a function of
/// the seconds alone; nothing else is claimed of it.
#[verifier::external_body]
fn offset_from_timestamp(secs: i64) -> (r: Option<time::OffsetDateTime>)
    ensures
        r == offset_date_time_of_timestamp(secs),
{
    time::OffsetDateTime::from_unix_timestamp(secs).ok()
}

/// `time::OffsetDateTime::to_julian_day`: the Julian day number of the day
/// of a time, in the zone of the time. Of a time that
/// `time::OffsetDateTime::from_unix_timestamp` has made, it is the day
/// that the maker counted: the whole days of the seconds, from the Julian
/// day number of 1970-01-01.
#[verifier::external_body]
fn offset_to_julian_day(time: &time::OffsetDateTime) -> (r: i32)
    ensures
        forall|secs: i64|
            #[trigger] offset_date_time_of_timestamp(secs) == Some(*time) ==> r == 2440588 + secs
                / 86400,
{
    time.to_julian_day()
}

/// `time::PrimitiveDateTime::to_julian_day`: the Julian day number of the
/// day of a time without a zone.
#[verifier::external_body]
fn primitive_to_julian_day(time: &time::PrimitiveDateTime) -> i32 {
    time.to_julian_day()
}

/// What a conversion gives where the other date format has found a value
/// for the date, and where it has found none.
pub fn found_or_error<T>(found: Option<T>) -> (r: Result<T, DateConversionError>)
    ensures
        r == match found {
            Some(value) => Ok::<T, DateConversionError>(value),
            None => Err::<T, DateConversionError>(DateConversionError),
        },
{
    match found {
        Some(value) => Ok(value),
        None => Err(DateConversionError),
    }
}

impl Date {
    /// The date as it is handed to `chrono`: a day count in which day 1 is
    /// 0001-01-01, made into a date of `chrono`.
    pub open spec fn spec_to_naive_date(self) -> Result<chrono::NaiveDate, DateConversionError> {
        if i32::MIN <= self.0 + 719163 <= i32::MAX {
            match naive_date_of_days((self.0 + 719163) as i32) {
                Some(date) => Ok(date),
                None => Err(DateConversionError),
            }
        } else {
            Err(DateConversionError)
        }
    }

    /// The date as it is handed to `time`: the seconds from 1970-01-01 to
    /// midnight of the date, made into a time of `time`.
    pub open spec fn spec_to_offset_date_time(self) -> Result<
        time::OffsetDateTime,
        DateConversionError,
    > {
        if i64::MIN <= self.0 * 86400 <= i64::MAX {
            match offset_date_time_of_timestamp((self.0 * 86400) as i64) {
                Some(time) => Ok(time),
                None => Err(DateConversionError),
            }
        } else {
            Err(DateConversionError)
        }
    }

    /// Midnight of the date in universal time, as a time of the system
    /// clock. Fails where the seconds between the date and 1970-01-01 do
    /// not fit 64 bits, or the clock of the machine cannot hold the time.
    pub fn to_system_time(&self) -> (r: Result<SystemTime, DateConversionError>)
        ensures
            !(-(u64::MAX / 86400) <= self.0 <= u64::MAX / 86400) ==> r is Err,
    {
        let time = match self.to_unix_seconds() {
            Ok(Ok(secs)) => epoch_plus(whole_seconds(secs)),
            Ok(Err(secs)) => epoch_minus(whole_seconds(secs)),
            Err(error) => {
                return Err(error);
            },
        };
        found_or_error(time)
    }

    /// The date that lies as many days from 1970-01-01 as a time of the
    /// system clock lies whole days from the start of that day in universal
    /// time, after it or before it. Fails where the date does not fit a
    /// machine word; it fits wherever a machine word holds the days of
    /// every number of seconds of 64 bits.
    pub fn from_system_time(time: &SystemTime) -> (r: Result<Date, DateConversionError>)
        ensures
            u64::MAX / 86400 <= isize::MAX ==> r is Ok,
            r matches Ok(date) ==> -(u64::MAX / 86400) <= date.0 <= u64::MAX / 86400,
    {
        match since_epoch(time) {
            Ok(after) => Date::from_unix_seconds(seconds_of(&after), false),
            Err(error) => Date::from_unix_seconds(seconds_of(&distance_before(&error)), true),
        }
    }

    /// The date as a date of `chrono`. Fails where `chrono` has no such
    /// date.
    pub fn to_naive_date(&self) -> (r: Result<chrono::NaiveDate, DateConversionError>)
        ensures
            r == self.spec_to_naive_date(),
    {
        match self.to_days_from_ce() {
            Ok(days) => found_or_error(naive_from_days(days)),
            Err(error) => Err(error),
        }
    }

    /// The date that a date of `chrono` stands for: the date that
    /// [`Date::to_naive_date`] makes into `date` again. Fails where the
    /// date does not fit a machine word; it fits wherever a machine word
    /// holds every day count of 32 bits, shifted to 1970-01-01.
    pub fn from_naive_date(date: &chrono::NaiveDate) -> (r: Result<Date, DateConversionError>)
        ensures
            isize::MIN <= i32::MIN - 719163 ==> r is Ok,
            r matches Ok(made) ==> made.spec_to_naive_date() == Ok::<
                chrono::NaiveDate,
                DateConversionError,
            >(*date),
            forall|made: Date|
                #[trigger] made.spec_to_naive_date() == Ok::<
                    chrono::NaiveDate,
                    DateConversionError,
                >(*date) ==> r == Ok::<Date, DateConversionError>(made),
            r matches Ok(made) ==> i32::MIN <= made.0 + 719163 <= i32::MAX,
    {
        Date::from_days_from_ce(naive_to_days(date))
    }

    /// Midnight of the date in universal time, as a time of `time`. Fails
    /// where `time` has no such time.
    pub fn to_offset_date_time(&self) -> (r: Result<time::OffsetDateTime, DateConversionError>)
        ensures
            r == self.spec_to_offset_date_time(),
    {
        let secs: i128 = self.0 as i128 * 86400;
        if secs < i64::MIN as i128 || secs > i64::MAX as i128 {
            return Err(DateConversionError);
        }
        found_or_error(offset_from_timestamp(secs as i64))
    }

    /// The date of the day of a time of `time`, in the zone of the time:
    /// of a time that [`Date::to_offset_date_time`] has made of a date,
    /// that date. Fails where the date does not fit a machine word; it fits
    /// wherever a machine word holds every Julian day number of 32 bits,
    /// shifted to 1970-01-01.
    pub fn from_offset_date_time(time: &time::OffsetDateTime) -> (r: Result<
        Date,
        DateConversionError,
    >)
        ensures
            isize::MIN <= i32::MIN - 2440588 ==> r is Ok,
            forall|made: Date|
                #[trigger] made.spec_to_offset_date_time() == Ok::<
                    time::OffsetDateTime,
                    DateConversionError,
                >(*time) ==> r == Ok::<Date, DateConversionError>(made),
            r matches Ok(date) ==> i32::MIN <= date.0 + 2440588 <= i32::MAX,
    {
        Date::from_julian_day(offset_to_julian_day(time))
    }

    /// The date of the day of a time of `time` without a zone. Fails where
    /// the date does not fit a machine word; it fits wherever a machine
    /// word holds every Julian day number of 32 bits, shifted to
    /// 1970-01-01.
    pub fn from_primitive_date_time(time: &time::PrimitiveDateTime) -> (r: Result<
        Date,
        DateConversionError,
    >)
        ensures
            isize::MIN <= i32::MIN - 2440588 ==> r is Ok,
            r matches Ok(date) ==> i32::MIN <= date.0 + 2440588 <= i32::MAX,
    {
        Date::from_julian_day(primitive_to_julian_day(time))
    }
}

impl TryFrom<Date> for time::OffsetDateTime {
    type Error = DateConversionError;

    fn try_from(value: Date) -> (r: Result<time::OffsetDateTime, DateConversionError>) {
        value.to_offset_date_time()
    }
}

impl vstd::std_specs::convert::TryFromSpecImpl<Date> for time::OffsetDateTime {
    open spec fn obeys_try_from_spec() -> bool {
        true
    }

    open spec fn try_from_spec(value: Date) -> Result<time::OffsetDateTime, DateConversionError> {
        value.spec_to_offset_date_time()
    }
}

impl TryFrom<Date> for SystemTime {
    type Error = DateConversionError;

    /// Midnight of `value` in universal time, as a time of the system
    /// clock. Fails where the seconds between the date and 1970-01-01 do
    /// not fit 64 bits, or the clock of the machine cannot hold the time.
    fn try_from(value: Date) -> (r: Result<SystemTime, DateConversionError>)
        ensures
            !(-(u64::MAX / 86400) <= value.0 <= u64::MAX / 86400) ==> r is Err,
    {
        value.to_system_time()
    }
}

/// The time of the system clock that a date is made into depends on the
/// machine, so no function of the date is promised for it.
impl vstd::std_specs::convert::TryFromSpecImpl<Date> for SystemTime {
    open spec fn obeys_try_from_spec() -> bool {
        false
    }

    open spec fn try_from_spec(value: Date) -> Result<SystemTime, DateConversionError> {
        Err(DateConversionError)
    }
}

impl TryFrom<Date> for chrono::NaiveDate {
    type Error = DateConversionError;

    fn try_from(value: Date) -> (r: Result<chrono::NaiveDate, DateConversionError>) {
        value.to_naive_date()
    }
}

impl vstd::std_specs::convert::TryFromSpecImpl<Date> for chrono::NaiveDate {
    open spec fn obeys_try_from_spec() -> bool {
        true
    }

    open spec fn try_from_spec(value: Date) -> Result<chrono::NaiveDate, DateConversionError> {
        value.spec_to_naive_date()
    }
}

} // verus!
