//! The proleptic Gregorian calendar as a mathematical model: leap years,
//! month lengths, and the bijection between civil dates and day counts.

use vstd::prelude::*;

verus! {

/// Whether year `y` has a 29th of February.
pub open spec fn is_leap_year(y: int) -> bool {
    y % 4 == 0 && (y % 100 != 0 || y % 400 == 0)
}

/// Length of month `m` of year `y`, for `m` in `1..=12`.
pub open spec fn days_in_month(y: int, m: int) -> int {
    if m == 2 {
        if is_leap_year(y) {
            29
        } else {
            28
        }
    } else if m == 4 || m == 6 || m == 9 || m == 11 {
        30
    } else {
        31
    }
}

/// Whether `(y, m, d)` names a day of the calendar.
pub open spec fn valid_ymd(y: int, m: int, d: int) -> bool {
    1 <= m <= 12 && 1 <= d <= days_in_month(y, m)
}

/// Days from 0001-01-01 to the first of January of year `y`.
pub open spec fn days_before_year(y: int) -> int {
    365 * (y - 1) + (y - 1) / 4 - (y - 1) / 100 + (y - 1) / 400
}

/// Days from the first of January of year `y` to the first of month `m`.
pub open spec fn days_before_month(y: int, m: int) -> int {
    let leap: int = if is_leap_year(y) {
        1
    } else {
        0
    };
    if m <= 1 {
        0
    } else if m == 2 {
        31
    } else if m == 3 {
        59 + leap
    } else if m == 4 {
        90 + leap
    } else if m == 5 {
        120 + leap
    } else if m == 6 {
        151 + leap
    } else if m == 7 {
        181 + leap
    } else if m == 8 {
        212 + leap
    } else if m == 9 {
        243 + leap
    } else if m == 10 {
        273 + leap
    } else if m == 11 {
        304 + leap
    } else {
        334 + leap
    }
}

/// Days from 1970-01-01 to `(y, m, d)`; negative before the epoch. Linear in
/// `d`, so a day past the end of its month counts into the next one.
pub open spec fn civil_to_days(y: int, m: int, d: int) -> int {
    days_before_year(y) + days_before_month(y, m) + d - 1 - 719162
}

/// The era-based formula that the conversion evaluates: years start in
/// March, eras are 400 years long.
pub open spec fn era_days(y: int, m: int, d: int) -> int {
    let ys = if m <= 2 {
        y - 1
    } else {
        y
    };
    let era = ys / 400;
    let year_of_era = ys - era * 400;
    let month_part = if m > 2 {
        m - 3
    } else {
        m + 9
    };
    let day_of_year = (153 * month_part + 2) / 5 + d - 1;
    let day_of_era = 365 * year_of_era + year_of_era / 4 - year_of_era / 100 + day_of_year;
    era * 146097 + day_of_era - 719468
}

/// The era-based formula counts days exactly as the calendar does.
pub proof fn lemma_era_days(y: int, m: int, d: int)
    requires
        1 <= m <= 12,
    ensures
        era_days(y, m, d) == civil_to_days(y, m, d),
{
    let ys = if m <= 2 {
        y - 1
    } else {
        y
    };
    let era = ys / 400;
    let yoe = ys - era * 400;
    assert(0 <= yoe < 400);
    lemma_year_before(era, yoe);
    if m <= 2 {
        // The civil year is `ys + 1`; January and February close the
        // March-based year `ys`.
        assert(days_before_year(y) == days_before_year(ys) + 365 + if is_leap_year(ys) {
            1int
        } else {
            0int
        }) by {
            lemma_year_length(ys);
        }
        lemma_leap_in_era(era, yoe);
    } else {
        lemma_leap_in_era(era, yoe);
    }
}

/// Years before the one at offset `yoe` of era `era`, counted in days.
proof fn lemma_year_before(era: int, yoe: int)
    requires
        0 <= yoe < 400,
    ensures
        days_before_year(400 * era + yoe) == 146097 * era + 365 * yoe - 365 + (yoe - 1) / 4 - (yoe
            - 1) / 100 - if yoe == 0 {
            1int
        } else {
            0int
        },
{
    let x = 400 * era + yoe - 1;
    if yoe == 0 {
        assert(x == 400 * (era - 1) + 399);
        assert(x / 400 == era - 1);
        assert(x / 100 == 4 * era - 1);
        assert(x / 4 == 100 * era - 1);
    } else {
        assert(x / 400 == era);
        assert(x / 100 == 4 * era + (yoe - 1) / 100);
        assert(x / 4 == 100 * era + (yoe - 1) / 4);
    }
}

/// The leap rule read off the offset of a year in its era.
proof fn lemma_leap_in_era(era: int, yoe: int)
    requires
        0 <= yoe < 400,
    ensures
        is_leap_year(400 * era + yoe) <==> (yoe % 4 == 0 && (yoe % 100 != 0 || yoe == 0)),
        is_leap_year(400 * era + yoe + 1) <==> ((yoe + 1) % 4 == 0 && ((yoe + 1) % 100 != 0 || yoe
            == 399)),
{
    let y = 400 * era + yoe;
    lemma_remainders_in_era(era, yoe);
    lemma_remainders_in_era(era, yoe + 1);
    assert(y % 400 == yoe);
    assert(0 <= (y + 1) % 400 < 400);
}

/// Adding whole eras to a year changes none of the remainders that the
/// leap rule reads.
proof fn lemma_remainders_in_era(era: int, x: int)
    ensures
        (400 * era + x) % 4 == x % 4,
        (400 * era + x) % 100 == x % 100,
        (400 * era + x) % 400 == x % 400,
{
    assert((4 * (100 * era) + x) % 4 == x % 4);
    assert((100 * (4 * era) + x) % 100 == x % 100);
}

/// A year is 365 days long, and 366 when it is a leap year.
pub proof fn lemma_year_length(y: int)
    ensures
        days_before_year(y + 1) == days_before_year(y) + 365 + if is_leap_year(y) {
            1int
        } else {
            0int
        },
{
    let a = y - 1;
    assert(y / 4 == a / 4 + if y % 4 == 0 {
        1int
    } else {
        0int
    });
    assert(y / 100 == a / 100 + if y % 100 == 0 {
        1int
    } else {
        0int
    });
    assert(y / 400 == a / 400 + if y % 400 == 0 {
        1int
    } else {
        0int
    });
    assert(y % 400 == 0 ==> y % 100 == 0);
    assert(y % 100 == 0 ==> y % 4 == 0);
}

/// Days of an era that lie before its March-based year `yoe`.
pub open spec fn days_before_year_of_era(yoe: int) -> int {
    365 * yoe + yoe / 4 - yoe / 100
}

/// The year of the era that holds day `doe` of the era.
pub open spec fn year_of_era(doe: int) -> int {
    (doe - doe / 1460 + doe / 36524 - doe / 146096) / 365
}

/// Whether the March-based year `yoe` of an era ends with a 29th of February.
pub open spec fn ends_with_leap_day(yoe: int) -> bool {
    (yoe + 1) % 4 == 0 && ((yoe + 1) % 100 != 0 || yoe == 399)
}

/// The year-of-era formula finds the year that holds day `doe` of an era.
#[verifier::spinoff_prover]
#[verifier::rlimit(60)]
pub proof fn lemma_year_in_era(doe: int)
    requires
        0 <= doe < 146097,
    ensures
        0 <= year_of_era(doe) < 400,
        days_before_year_of_era(year_of_era(doe)) <= doe,
        doe - days_before_year_of_era(year_of_era(doe)) < 365 + if ends_with_leap_day(
            year_of_era(doe),
        ) {
            1int
        } else {
            0int
        },
{
}

/// The civil date that lies `n` days after 1970-01-01, as `(year, month,
/// day)`: the era-based formula read backwards.
#[verifier::opaque]
pub open spec fn days_to_civil(n: int) -> (int, int, int) {
    let shifted = n + 719468;
    let era = shifted / 146097;
    let doe = shifted - era * 146097;
    let yoe = year_of_era(doe);
    let doy = doe - days_before_year_of_era(yoe);
    let month_part = (5 * doy + 2) / 153;
    let d = doy - (153 * month_part + 2) / 5 + 1;
    let m = if month_part < 10 {
        month_part + 3
    } else {
        month_part - 9
    };
    let y = yoe + era * 400 + if m <= 2 {
        1int
    } else {
        0int
    };
    (y, m, d)
}

/// Every day count names a day of the calendar, and counting the days to
/// that day gives the count back.
pub proof fn lemma_days_to_civil(n: int)
    ensures
        valid_ymd(days_to_civil(n).0, days_to_civil(n).1, days_to_civil(n).2),
        civil_to_days(days_to_civil(n).0, days_to_civil(n).1, days_to_civil(n).2) == n,
{
    reveal(days_to_civil);
    let shifted = n + 719468;
    let era = shifted / 146097;
    let doe = shifted - era * 146097;
    let yoe = year_of_era(doe);
    let doy = doe - days_before_year_of_era(yoe);
    let month_part = (5 * doy + 2) / 153;
    let d = doy - (153 * month_part + 2) / 5 + 1;
    let (y, m, _d) = days_to_civil(n);
    lemma_year_in_era(doe);
    lemma_leap_in_era(era, yoe);
    assert(0 <= month_part <= 11);
    assert(valid_ymd(y, m, d));
    let ys = if m <= 2 {
        y - 1
    } else {
        y
    };
    assert(ys == 400 * era + yoe);
    assert(ys / 400 == era);
    assert(era_days(y, m, d) == n);
    lemma_era_days(y, m, d);
}

/// Later years start later.
pub proof fn lemma_days_before_year_monotonic(a: int, b: int)
    requires
        a <= b,
    ensures
        days_before_year(a) <= days_before_year(b),
{
}

/// The day count orders civil dates as the calendar does.
pub proof fn lemma_civil_to_days_ordered(y1: int, m1: int, d1: int, y2: int, m2: int, d2: int)
    requires
        valid_ymd(y1, m1, d1),
        valid_ymd(y2, m2, d2),
        y1 < y2 || (y1 == y2 && (m1 < m2 || (m1 == m2 && d1 < d2))),
    ensures
        civil_to_days(y1, m1, d1) < civil_to_days(y2, m2, d2),
{
    if y1 < y2 {
        lemma_year_length(y1);
        lemma_days_before_year_monotonic(y1 + 1, y2);
    }
}

/// Two days of the calendar with the same day count are the same day.
pub proof fn lemma_civil_to_days_injective(y1: int, m1: int, d1: int, y2: int, m2: int, d2: int)
    requires
        valid_ymd(y1, m1, d1),
        valid_ymd(y2, m2, d2),
        civil_to_days(y1, m1, d1) == civil_to_days(y2, m2, d2),
    ensures
        y1 == y2,
        m1 == m2,
        d1 == d2,
{
    if y1 < y2 || (y1 == y2 && (m1 < m2 || (m1 == m2 && d1 < d2))) {
        lemma_civil_to_days_ordered(y1, m1, d1, y2, m2, d2);
    } else if y2 < y1 || (y2 == y1 && (m2 < m1 || (m2 == m1 && d2 < d1))) {
        lemma_civil_to_days_ordered(y2, m2, d2, y1, m1, d1);
    }
}

/// Converting a day of the calendar to its day count and back gives the
/// same day.
pub proof fn lemma_civil_round_trip(y: int, m: int, d: int)
    requires
        valid_ymd(y, m, d),
    ensures
        days_to_civil(civil_to_days(y, m, d)) == (y, m, d),
{
    let n = civil_to_days(y, m, d);
    let r = days_to_civil(n);
    lemma_days_to_civil(n);
    lemma_civil_to_days_injective(r.0, r.1, r.2, y, m, d);
}

/// A day lies before the first of January of year `y` exactly when its
/// year is before `y`.
pub proof fn lemma_year_of_day(n: int, y: int)
    ensures
        days_to_civil(n).0 < y <==> n < civil_to_days(y, 1, 1),
{
    let (yn, mn, dn) = days_to_civil(n);
    lemma_days_to_civil(n);
    if yn < y {
        lemma_civil_to_days_ordered(yn, mn, dn, y, 1, 1);
    } else if yn > y || mn > 1 || dn > 1 {
        lemma_civil_to_days_ordered(y, 1, 1, yn, mn, dn);
    }
}

/// The year of a day that fits a machine word is far from the ends of the
/// machine word.
pub proof fn lemma_year_fits(n: int)
    requires
        isize::MIN <= n <= isize::MAX,
    ensures
        isize::MIN / 2 < days_to_civil(n).0 < isize::MAX / 2,
{
    let (y, m, d) = days_to_civil(n);
    lemma_days_to_civil(n);
    if y >= 1 {
        assert(days_before_year(y) >= 365 * (y - 1));
    } else {
        assert(days_before_year(y + 1) <= 365 * y + 1) by {
            lemma_year_length(y);
        }
    }
}

} // verus!
