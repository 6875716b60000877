use chrono::NaiveDate;
use holidays::{Date, DateConversionError};
use std::time::{Duration, SystemTime};

fn round_trip(y: isize, m: u8, d: u8) {
    let date = std::hint::black_box(Date::from_ymd(y, m, d));
    let (y_out, m_out, d_out) = date.ymd();
    assert_eq!(y, y_out);
    assert_eq!(m, m_out);
    assert_eq!(d, d_out);
}

#[test]
fn ymd_to_days() {
    round_trip(2025, 5, 20);
    round_trip(4423, 1, 18);
    round_trip(-2344, 2, 6);

    println!("{:?}", Date(-2440588));
    println!("{}", Date(-2440588).to_debug_string());

    let date = Date::from_ymd(1970, 1, 1);
    assert_eq!(date.0, 0);

    let date = Date::from_ymd(1970, 2, 1);
    assert_eq!(date.0, 31);

    let date = Date::from_ymd(2025, 6, 12);
    assert_eq!(date.0, 20251);

    let date = Date::from_ymd(1602, 10, 12);
    assert_eq!(date.0, -134125);

    let date = Date::from_ymd(6453, 3, 15);
    assert_eq!(date.0, 1637456);
}

#[test]
fn round_trip_at_the_edges_of_months_and_years() {
    round_trip(1970, 1, 1);
    round_trip(1969, 12, 31);
    round_trip(2000, 2, 29);
    round_trip(2000, 3, 1);
    round_trip(1900, 2, 28);
    round_trip(1900, 3, 1);
    round_trip(2024, 2, 29);
    round_trip(2023, 12, 31);
    round_trip(0, 1, 1);
    round_trip(0, 2, 29);
    round_trip(-1, 12, 31);
    round_trip(-400, 2, 29);
    round_trip(-401, 3, 1);
    round_trip(400, 12, 31);
}

#[test]
fn every_day_of_four_centuries_round_trips_in_order() {
    let mut days = Date::from_ymd(1600, 1, 1).0;
    let end = Date::from_ymd(2000, 12, 31).0;
    let mut before = Date(days - 1).ymd();
    while days <= end {
        let (y, m, d) = Date(days).ymd();
        assert_eq!(Date::from_ymd(y, m, d).0, days);
        assert!(before < (y, m, d));
        assert!((1..=12).contains(&m) && (1..=31).contains(&d));
        before = (y, m, d);
        days += 1;
    }
    assert_eq!(before, (2000, 12, 31));
}

#[test]
fn a_day_past_the_end_of_its_month_counts_into_the_next() {
    assert_eq!(Date::from_ymd(2025, 2, 30), Date::from_ymd(2025, 3, 2));
    assert_eq!(Date::from_ymd(2024, 2, 30), Date::from_ymd(2024, 3, 1));
}

#[test]
fn negative_years_use_floor_division() {
    assert_eq!(Date::from_ymd(-1, 3, 1).0 - Date::from_ymd(-1, 2, 28).0, 1);
    assert_eq!(Date::from_ymd(0, 3, 1).0 - Date::from_ymd(0, 2, 28).0, 2);
    assert_eq!(Date::from_ymd(1, 1, 1).0, -719162);
    assert_eq!(Date(-719162).ymd(), (1, 1, 1));
    assert_eq!(Date(-719163).ymd(), (0, 12, 31));
}

#[test]
fn from_year_is_the_first_of_january() {
    assert_eq!(Date::from_year(1970), Date(0));
    assert_eq!(Date::from_year(1971), Date(365));
    assert_eq!(Date::from_year(2025), Date::from_ymd(2025, 1, 1));
}

#[test]
fn parts_of_a_date() {
    let date = Date::from_ymd(2025, 6, 12);
    assert_eq!(date.year(), 2025);
    assert_eq!(date.month(), 6);
    assert_eq!(date.day(), 12);
}

#[test]
fn dates_are_ordered_as_their_day_counts() {
    assert!(Date::from_ymd(2025, 1, 1) < Date::from_ymd(2025, 1, 2));
    assert!(Date::from_ymd(1969, 12, 31) < Date::from_ymd(1970, 1, 1));
}

#[test]
fn days_since_gives_the_direction() {
    let a = Date::from_ymd(2025, 1, 10);
    let b = Date::from_ymd(2025, 1, 1);
    assert_eq!(a.days_since(&b), Ok(9));
    assert_eq!(b.days_since(&a), Err(9));
    assert_eq!(a.days_since(&a), Err(0));
    assert_eq!(Date(isize::MAX).days_since(&Date(isize::MIN)), Ok(usize::MAX));
}

#[test]
fn seconds_and_duration_since() {
    let a = Date::from_ymd(2025, 1, 10);
    let b = Date::from_ymd(2025, 1, 1);
    assert_eq!(a.seconds_since(&b), Ok(9 * 86400));
    assert_eq!(b.seconds_since(&a), Err(9 * 86400));
    assert_eq!(a.duration_since(&b), Ok(Duration::from_secs(777600)));
    assert_eq!(b.duration_since(&a), Err(Duration::from_secs(777600)));
    assert_eq!(a.duration_since(&a), Err(Duration::from_secs(0)));
}

#[test]
fn unix_seconds() {
    assert_eq!(Date(0).to_unix_seconds(), Ok(Ok(0)));
    assert_eq!(Date(2).to_unix_seconds(), Ok(Ok(172800)));
    assert_eq!(Date(-2).to_unix_seconds(), Ok(Err(172800)));
    assert_eq!(Date(isize::MAX).to_unix_seconds(), Err(DateConversionError));
    assert_eq!(Date(isize::MIN).to_unix_seconds(), Err(DateConversionError));
    assert_eq!(Date::from_unix_seconds(0, false), Ok(Date(0)));
    assert_eq!(Date::from_unix_seconds(86399, false), Ok(Date(0)));
    assert_eq!(Date::from_unix_seconds(86400, false), Ok(Date(1)));
    assert_eq!(Date::from_unix_seconds(86400, true), Ok(Date(-1)));
    assert_eq!(Date::from_unix_seconds(1, true), Ok(Date(0)));
    assert_eq!(Date::from_unix_seconds(1749686400, false), Ok(Date::from_ymd(2025, 6, 12)));
}

#[test]
fn days_from_the_common_era() {
    assert_eq!(Date(0).to_days_from_ce(), Ok(719163));
    assert_eq!(Date::from_ymd(1, 1, 1).to_days_from_ce(), Ok(1));
    assert_eq!(Date::from_days_from_ce(719163), Ok(Date(0)));
    assert_eq!(Date::from_days_from_ce(1), Ok(Date::from_ymd(1, 1, 1)));
    assert_eq!(Date(i32::MAX as isize).to_days_from_ce(), Err(DateConversionError));
    assert_eq!(Date(i32::MAX as isize - 719163).to_days_from_ce(), Ok(i32::MAX));
    assert_eq!(Date(i32::MIN as isize - 719163).to_days_from_ce(), Ok(i32::MIN));
    assert_eq!(Date(i32::MIN as isize - 719164).to_days_from_ce(), Err(DateConversionError));
}

#[test]
fn julian_days() {
    assert_eq!(Date(0).to_julian_day(), Ok(2440588));
    assert_eq!(Date(-2440588).to_julian_day(), Ok(0));
    assert_eq!(Date::from_julian_day(2440588), Ok(Date(0)));
    assert_eq!(Date::from_julian_day(0), Ok(Date(-2440588)));
    assert_eq!(Date(i32::MAX as isize).to_julian_day(), Err(DateConversionError));
    assert_eq!(Date(-2440588).ymd(), (-4713, 11, 24));
}

#[test]
fn conversion_error_says_what_went_wrong() {
    assert_eq!(DateConversionError.message(), "Date is too large for conversion");
}

#[test]
fn dates_of_chrono() {
    let day = |y, m, d| NaiveDate::from_ymd_opt(y, m, d).unwrap();
    assert_eq!(Date(0).to_naive_date(), Ok(day(1970, 1, 1)));
    assert_eq!(Date::from_ymd(2025, 6, 12).to_naive_date(), Ok(day(2025, 6, 12)));
    assert_eq!(Date::from_ymd(-44, 3, 15).to_naive_date(), Ok(day(-44, 3, 15)));
    assert_eq!(Date::from_ymd(2000, 2, 29).to_naive_date(), Ok(day(2000, 2, 29)));
    assert_eq!(Date::from_naive_date(&day(1970, 1, 1)), Ok(Date(0)));
    assert_eq!(Date::from_naive_date(&day(2025, 6, 12)), Ok(Date(20251)));
    assert_eq!(Date::from_naive_date(&day(1602, 10, 12)), Ok(Date(-134125)));
    assert_eq!(Date::from_naive_date(&NaiveDate::MAX).unwrap().to_naive_date(), Ok(NaiveDate::MAX));
    assert_eq!(Date::from_naive_date(&NaiveDate::MIN).unwrap().to_naive_date(), Ok(NaiveDate::MIN));
    let past_the_last = Date(Date::from_naive_date(&NaiveDate::MAX).unwrap().0 + 1);
    assert_eq!(past_the_last.to_naive_date(), Err(DateConversionError));
    let past_the_first = Date(Date::from_naive_date(&NaiveDate::MIN).unwrap().0 - 1);
    assert_eq!(past_the_first.to_naive_date(), Err(DateConversionError));
    assert_eq!(Date(isize::MAX).to_naive_date(), Err(DateConversionError));
    assert_eq!(Date(isize::MIN).to_naive_date(), Err(DateConversionError));
    assert_eq!(NaiveDate::try_from(Date(31)), Ok(day(1970, 2, 1)));
}

#[test]
fn every_day_of_a_century_agrees_with_chrono() {
    let mut date = Date::from_ymd(1950, 1, 1);
    let end = Date::from_ymd(2050, 1, 1);
    while date < end {
        let (y, m, d) = date.ymd();
        let naive = NaiveDate::from_ymd_opt(y as i32, m as u32, d as u32).unwrap();
        assert_eq!(date.to_naive_date(), Ok(naive));
        assert_eq!(Date::from_naive_date(&naive), Ok(date));
        date = Date(date.0 + 1);
    }
}

#[test]
fn times_of_the_system_clock() {
    let epoch = SystemTime::UNIX_EPOCH;
    assert_eq!(Date(0).to_system_time(), Ok(epoch));
    assert_eq!(Date(2).to_system_time(), Ok(epoch + Duration::from_secs(172800)));
    assert_eq!(Date(-2).to_system_time(), Ok(epoch - Duration::from_secs(172800)));
    assert_eq!(Date(isize::MAX).to_system_time(), Err(DateConversionError));
    assert_eq!(Date(isize::MIN).to_system_time(), Err(DateConversionError));
    assert_eq!(SystemTime::try_from(Date(1)), Ok(epoch + Duration::from_secs(86400)));
    assert_eq!(Date::from_system_time(&epoch), Ok(Date(0)));
    assert_eq!(Date::from_system_time(&(epoch + Duration::from_secs(86399))), Ok(Date(0)));
    assert_eq!(Date::from_system_time(&(epoch + Duration::from_secs(86400))), Ok(Date(1)));
    assert_eq!(Date::from_system_time(&(epoch - Duration::from_secs(86400))), Ok(Date(-1)));
    assert_eq!(Date::from_system_time(&(epoch - Duration::from_secs(1))), Ok(Date(0)));
    let now = Date::from_system_time(&SystemTime::now()).unwrap();
    assert!(now > Date::from_ymd(2020, 1, 1));
}

#[test]
fn checked_dates() {
    assert_eq!(Date::checked_from_ymd(2025, 6, 12), Some(Date(20251)));
    assert_eq!(Date::checked_from_ymd(1970, 1, 1), Some(Date(0)));
    assert_eq!(Date::checked_from_ymd(2025, 2, 31), Some(Date::from_ymd(2025, 3, 3)));
    assert_eq!(Date::checked_from_ymd(2025, 0, 1), None);
    assert_eq!(Date::checked_from_ymd(2025, 13, 1), None);
    assert_eq!(Date::checked_from_ymd(2025, 1, 0), None);
    assert_eq!(Date::checked_from_ymd(2025, 1, 32), None);
    assert_eq!(Date::checked_from_ymd(isize::MAX, 1, 1), None);
    assert_eq!(Date::checked_from_ymd(isize::MIN, 1, 1), None);
    let (y, m, d) = Date(isize::MAX).ymd();
    assert_eq!(Date::checked_from_ymd(y, m, d), Some(Date(isize::MAX)));
    let (y, m, d) = Date(isize::MIN).ymd();
    assert_eq!(Date::checked_from_ymd(y, m, d), Some(Date(isize::MIN)));
    assert_eq!(Date::checked_from_ymd(y - 1, m, d), None);
}

#[test]
fn the_first_and_the_last_date_of_all_round_trip() {
    for days in [isize::MAX, isize::MAX - 1, isize::MIN, isize::MIN + 1] {
        let (y, m, d) = Date(days).ymd();
        assert!((1..=12).contains(&m) && (1..=31).contains(&d));
        assert_eq!(Date::from_ymd(y, m, d), Date(days));
    }
}

#[test]
fn a_date_as_text() {
    assert_eq!(Date(20251).to_debug_string(), "Date(2025-06-12)");
    assert_eq!(Date(0).to_debug_string(), "Date(1970-01-01)");
    assert_eq!(Date(-2440588).to_debug_string(), "Date(-4713-11-24)");
    assert_eq!(Date::from_ymd(33, 4, 3).to_debug_string(), "Date(0033-04-03)");
    assert_eq!(Date::from_ymd(12345, 12, 31).to_debug_string(), "Date(12345-12-31)");
}

#[test]
fn times_of_the_time_crate() {
    let epoch = time::OffsetDateTime::UNIX_EPOCH;
    assert_eq!(Date(0).to_offset_date_time(), Ok(epoch));
    assert_eq!(Date(31).to_offset_date_time(), Ok(epoch + time::Duration::days(31)));
    assert_eq!(Date(-134125).to_offset_date_time(), Ok(epoch - time::Duration::days(134125)));
    let at = Date::from_ymd(2025, 6, 12).to_offset_date_time().unwrap();
    assert_eq!((at.year(), at.month() as u8, at.day()), (2025, 6, 12));
    assert_eq!((at.hour(), at.minute(), at.second(), at.nanosecond()), (0, 0, 0, 0));
    assert!(at.offset().is_utc());
    assert_eq!(Date(isize::MAX).to_offset_date_time(), Err(DateConversionError));
    assert_eq!(Date(isize::MIN).to_offset_date_time(), Err(DateConversionError));
    assert_eq!(Date(4_000_000).to_offset_date_time(), Err(DateConversionError));
    assert_eq!(time::OffsetDateTime::try_from(Date(1)), Ok(epoch + time::Duration::days(1)));
    assert_eq!(Date::from_offset_date_time(&epoch), Ok(Date(0)));
    assert_eq!(Date::from_offset_date_time(&(epoch + time::Duration::seconds(86399))), Ok(Date(0)));
    assert_eq!(Date::from_offset_date_time(&(epoch + time::Duration::seconds(86400))), Ok(Date(1)));
    assert_eq!(Date::from_offset_date_time(&(epoch - time::Duration::seconds(1))), Ok(Date(-1)));
    assert_eq!(Date::from_offset_date_time(&at), Ok(Date(20251)));
    let plain = time::PrimitiveDateTime::new(at.date(), at.time());
    assert_eq!(Date::from_primitive_date_time(&plain), Ok(Date(20251)));
}

#[test]
fn what_a_conversion_gives() {
    assert_eq!(holidays::adapters::found_or_error(Some(7)), Ok(7));
    assert_eq!(holidays::adapters::found_or_error(None::<u8>), Err(DateConversionError));
}

#[test]
fn dates_of_chrono_come_back_as_they_went() {
    for days in [-134125isize, -1, 0, 1, 20251, 1637456] {
        let naive = Date(days).to_naive_date().unwrap();
        let back = Date::from_naive_date(&naive).unwrap();
        assert_eq!(back, Date(days));
        assert_eq!(back.to_naive_date(), Ok(naive));
    }
}

#[test]
fn times_of_the_time_crate_come_back_as_they_went() {
    for days in [-134125isize, -1, 0, 1, 20251, 1637456] {
        let time = Date(days).to_offset_date_time().unwrap();
        assert_eq!(Date::from_offset_date_time(&time), Ok(Date(days)));
    }
}
