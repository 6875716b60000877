//! Constraints on the date of a holiday, and their intersection.

use crate::calendar::civil_to_days;
use crate::data::Dataset;
use crate::date::Date;
use crate::records::{lemma_lower_bound, lemma_lower_bound_unique, lower_bound, strictly_sorted, Holiday};
use core::ops::Range;
use vstd::prelude::*;

verus! {

/// One end of a range.
#[derive(Clone, Copy, Debug, PartialEq, Eq, Structural)]
pub enum Limit<T> {
    /// The range reaches the value and holds it.
    Included(T),
    /// The range reaches the value and does not hold it.
    Excluded(T),
    /// The range has no end on this side.
    Unbounded,
}

/// A constraint on the date of a holiday.
#[derive(Clone, Copy, Debug, PartialEq, Eq, Structural)]
pub enum DateQuery {
    /// The holiday falls on this date.
    Exact(Date),
    /// The holiday falls on this date or later.
    FromDate(Date),
    /// The holiday falls before this date.
    ToDate(Date),
    /// The holiday falls on the first date or later, and before the second.
    DateRange(Date, Date),
}

/// The later of two dates.
fn later(a: Date, b: Date) -> (r: Date)
    ensures
        r == DateQuery::spec_later(a, b),
{
    if a.0 >= b.0 {
        a
    } else {
        b
    }
}

/// The earlier of two dates.
fn earlier(a: Date, b: Date) -> (r: Date)
    ensures
        r == DateQuery::spec_earlier(a, b),
{
    if a.0 <= b.0 {
        a
    } else {
        b
    }
}

impl DateQuery {
    /// The constraint that no date meets, in its canonical form.
    pub open spec fn spec_empty() -> DateQuery {
        DateQuery::DateRange(Date(0), Date(0))
    }

    /// The constraint that no date meets, in its canonical form.
    pub fn empty() -> (r: DateQuery)
        ensures
            r == Self::spec_empty(),
    {
        DateQuery::DateRange(Date(0), Date(0))
    }

    /// Whether day `day` meets the constraint.
    pub open spec fn contains(self, day: int) -> bool {
        match self {
            DateQuery::Exact(d) => day == d.0,
            DateQuery::FromDate(d) => day >= d.0,
            DateQuery::ToDate(d) => day < d.0,
            DateQuery::DateRange(from, to) => from.0 <= day < to.0,
        }
    }

    /// Whether the constraint is a range that ends on or before its start.
    pub open spec fn spec_is_empty(self) -> bool {
        match self {
            DateQuery::DateRange(from, to) => from.0 >= to.0,
            _ => false,
        }
    }

    /// The later of two dates.
    pub open spec fn spec_later(a: Date, b: Date) -> Date {
        if a.0 >= b.0 {
            a
        } else {
            b
        }
    }

    /// The earlier of two dates.
    pub open spec fn spec_earlier(a: Date, b: Date) -> Date {
        if a.0 <= b.0 {
            a
        } else {
            b
        }
    }

    /// The range from `from` to `to`, or the canonical empty constraint
    /// where that range holds no date.
    pub open spec fn range_or_empty(from: Date, to: Date) -> DateQuery {
        if from.0 >= to.0 {
            Self::spec_empty()
        } else {
            DateQuery::DateRange(from, to)
        }
    }

    /// The date `d` as a constraint where `fits` holds, else the canonical
    /// empty constraint.
    pub open spec fn exact_or_empty(d: Date, fits: bool) -> DateQuery {
        if fits {
            DateQuery::Exact(d)
        } else {
            Self::spec_empty()
        }
    }

    /// The constraint that a date meets when it meets both `self` and
    /// `rhs`.
    pub open spec fn intersect(self, rhs: DateQuery) -> DateQuery {
        match (self, rhs) {
            (DateQuery::FromDate(a), DateQuery::FromDate(b)) => DateQuery::FromDate(
                Self::spec_later(a, b),
            ),
            (DateQuery::ToDate(a), DateQuery::ToDate(b)) => DateQuery::ToDate(
                Self::spec_earlier(a, b),
            ),
            (DateQuery::Exact(a), other) => Self::exact_or_empty(a, other.contains(a.0 as int)),
            (other, DateQuery::Exact(a)) => Self::exact_or_empty(a, other.contains(a.0 as int)),
            (DateQuery::FromDate(a), DateQuery::ToDate(b)) => Self::range_or_empty(a, b),
            (DateQuery::ToDate(b), DateQuery::FromDate(a)) => Self::range_or_empty(a, b),
            (DateQuery::FromDate(a), DateQuery::DateRange(from, to)) => Self::range_or_empty(
                Self::spec_later(a, from),
                to,
            ),
            (DateQuery::DateRange(from, to), DateQuery::FromDate(a)) => Self::range_or_empty(
                Self::spec_later(a, from),
                to,
            ),
            (DateQuery::ToDate(a), DateQuery::DateRange(from, to)) => Self::range_or_empty(
                from,
                Self::spec_earlier(a, to),
            ),
            (DateQuery::DateRange(from, to), DateQuery::ToDate(a)) => Self::range_or_empty(
                from,
                Self::spec_earlier(a, to),
            ),
            (
                DateQuery::DateRange(a_from, a_to),
                DateQuery::DateRange(b_from, b_to),
            ) => Self::range_or_empty(
                Self::spec_later(a_from, b_from),
                Self::spec_earlier(a_to, b_to),
            ),
        }
    }

    /// The dates of year `value`.
    pub fn year(value: isize) -> (r: DateQuery)
        requires
            isize::MIN <= civil_to_days(value as int, 1, 1),
            civil_to_days(value + 1, 1, 1) <= isize::MAX,
        ensures
            r == DateQuery::DateRange(
                Date(civil_to_days(value as int, 1, 1) as isize),
                Date(civil_to_days(value + 1, 1, 1) as isize),
            ),
    {
        DateQuery::DateRange(Date::from_year(value), Date::from_year(value + 1))
    }

    /// The first year of a range of years that starts at `start`.
    pub open spec fn first_year(start: Limit<isize>) -> Option<int> {
        match start {
            Limit::Included(y) => Some(y as int),
            Limit::Excluded(y) => Some(y + 1),
            Limit::Unbounded => None,
        }
    }

    /// The year after the last year of a range of years that ends at `end`.
    pub open spec fn end_year(end: Limit<isize>) -> Option<int> {
        match end {
            Limit::Included(y) => Some(y + 1),
            Limit::Excluded(y) => Some(y as int),
            Limit::Unbounded => None,
        }
    }

    /// Whether the first of January of year `year` is a date that fits a
    /// machine word, where there is such a year.
    pub open spec fn year_fits(year: Option<int>) -> bool {
        year matches Some(y) ==> isize::MIN <= civil_to_days(y, 1, 1) <= isize::MAX
    }

    /// The constraint that the dates of a range of years meet.
    pub open spec fn spec_year_range(start: Limit<isize>, end: Limit<isize>) -> Option<
        DateQuery,
    > {
        match (Self::first_year(start), Self::end_year(end)) {
            (None, None) => None,
            (None, Some(h)) => Some(DateQuery::ToDate(Date(civil_to_days(h, 1, 1) as isize))),
            (Some(l), None) => Some(DateQuery::FromDate(Date(civil_to_days(l, 1, 1) as isize))),
            (Some(l), Some(h)) => Some(
                DateQuery::DateRange(
                    Date(civil_to_days(l, 1, 1) as isize),
                    Date(civil_to_days(h, 1, 1) as isize),
                ),
            ),
        }
    }

    /// The first of January of the first year of a range that starts at
    /// `start`.
    fn first_year_start(start: Limit<isize>) -> (r: Option<Date>)
        requires
            Self::year_fits(Self::first_year(start)),
        ensures
            r == match Self::first_year(start) {
                Some(y) => Some(Date(civil_to_days(y, 1, 1) as isize)),
                None => None,
            },
    {
        match start {
            Limit::Included(y) => Some(Date::from_year(y)),
            Limit::Excluded(y) => Some(Date::from_year(y + 1)),
            Limit::Unbounded => None,
        }
    }

    /// The first of January of the year after a range that ends at `end`.
    fn end_year_start(end: Limit<isize>) -> (r: Option<Date>)
        requires
            Self::year_fits(Self::end_year(end)),
        ensures
            r == match Self::end_year(end) {
                Some(y) => Some(Date(civil_to_days(y, 1, 1) as isize)),
                None => None,
            },
    {
        match end {
            Limit::Included(y) => Some(Date::from_year(y + 1)),
            Limit::Excluded(y) => Some(Date::from_year(y)),
            Limit::Unbounded => None,
        }
    }

    /// The constraint that the dates of a range of years meet; `None` for
    /// the range of all years.
    pub fn year_range(start: Limit<isize>, end: Limit<isize>) -> (r: Option<DateQuery>)
        requires
            Self::year_fits(Self::first_year(start)),
            Self::year_fits(Self::end_year(end)),
        ensures
            r == Self::spec_year_range(start, end),
    {
        match (Self::first_year_start(start), Self::end_year_start(end)) {
            (None, None) => None,
            (None, Some(to)) => Some(DateQuery::ToDate(to)),
            (Some(from), None) => Some(DateQuery::FromDate(from)),
            (Some(from), Some(to)) => Some(DateQuery::DateRange(from, to)),
        }
    }

    /// Whether day `day` lies in the range from `start` to `end`.
    pub open spec fn within(start: Limit<Date>, end: Limit<Date>, day: int) -> bool {
        &&& match start {
            Limit::Included(s) => s.0 <= day,
            Limit::Excluded(s) => s.0 < day,
            Limit::Unbounded => true,
        }
        &&& match end {
            Limit::Included(e) => day <= e.0,
            Limit::Excluded(e) => day < e.0,
            Limit::Unbounded => true,
        }
    }

    /// The first day of a range of dates that starts at `start`.
    pub open spec fn first_day(start: Limit<Date>) -> Option<int> {
        match start {
            Limit::Included(s) => Some(s.0 as int),
            Limit::Excluded(s) => Some(s.0 + 1),
            Limit::Unbounded => None,
        }
    }

    /// The day after the last day of a range of dates that ends at `end`.
    pub open spec fn end_day(end: Limit<Date>) -> Option<int> {
        match end {
            Limit::Included(e) => Some(e.0 + 1),
            Limit::Excluded(e) => Some(e.0 as int),
            Limit::Unbounded => None,
        }
    }

    /// The constraint that the dates of a range of dates meet. A range that
    /// would start after the last date of all is empty, and one that would
    /// end after it has no end.
    pub open spec fn spec_date_range(start: Limit<Date>, end: Limit<Date>) -> Option<
        DateQuery,
    > {
        match (Self::first_day(start), Self::end_day(end)) {
            (None, None) => None,
            (None, Some(h)) => if h > isize::MAX {
                None
            } else {
                Some(DateQuery::ToDate(Date(h as isize)))
            },
            (Some(l), None) => if l > isize::MAX {
                Some(Self::spec_empty())
            } else {
                Some(DateQuery::FromDate(Date(l as isize)))
            },
            (Some(l), Some(h)) => if l > isize::MAX {
                Some(Self::spec_empty())
            } else if h > isize::MAX {
                Some(DateQuery::FromDate(Date(l as isize)))
            } else {
                Some(DateQuery::DateRange(Date(l as isize), Date(h as isize)))
            },
        }
    }

    /// The constraint of a range of dates is met by the dates of the range
    /// and by no other date.
    pub proof fn lemma_date_range_contains(start: Limit<Date>, end: Limit<Date>, day: int)
        requires
            isize::MIN <= day <= isize::MAX,
        ensures
            Self::within(start, end, day) <==> match Self::spec_date_range(start, end) {
                Some(q) => q.contains(day),
                None => true,
            },
    {
    }

    /// The constraint that the dates of a range of dates meet; `None` for
    /// the range of all dates.
    pub fn date_range(start: Limit<Date>, end: Limit<Date>) -> (r: Option<DateQuery>)
        ensures
            r == Self::spec_date_range(start, end),
    {
        let from: Option<Date> = match start {
            Limit::Included(s) => Some(s),
            Limit::Excluded(s) => {
                if s.0 == isize::MAX {
                    return Some(DateQuery::empty());
                }
                Some(Date(s.0 + 1))
            },
            Limit::Unbounded => None,
        };
        let to: Option<Date> = match end {
            Limit::Included(e) => {
                if e.0 == isize::MAX {
                    None
                } else {
                    Some(Date(e.0 + 1))
                }
            },
            Limit::Excluded(e) => Some(e),
            Limit::Unbounded => None,
        };
        match (from, to) {
            (None, None) => None,
            (None, Some(to)) => Some(DateQuery::ToDate(to)),
            (Some(from), None) => Some(DateQuery::FromDate(from)),
            (Some(from), Some(to)) => Some(DateQuery::DateRange(from, to)),
        }
    }

    /// The constraint of the single date `value`.
    pub fn date(value: Date) -> (r: DateQuery)
        ensures
            r == DateQuery::Exact(value),
    {
        DateQuery::Exact(value)
    }

    /// Whether the constraint is a range that ends on or before its start.
    /// Such a constraint is met by no date; every other one is met by
    /// some.
    pub fn is_empty(&self) -> (r: bool)
        ensures
            r == self.spec_is_empty(),
            r <==> forall|day: int| !self.contains(day),
    {
        proof {
            self.lemma_empty_contains_nothing();
        }
        match self {
            DateQuery::DateRange(a, b) => a.0 >= b.0,
            _ => false,
        }
    }

    /// A constraint is a range that ends on or before its start exactly
    /// when no date meets it.
    pub proof fn lemma_empty_contains_nothing(self)
        ensures
            self.spec_is_empty() <==> forall|day: int| !self.contains(day),
    {
        match self {
            DateQuery::Exact(d) => {
                assert(self.contains(d.0 as int));
            },
            DateQuery::FromDate(d) => {
                assert(self.contains(d.0 as int));
            },
            DateQuery::ToDate(d) => {
                assert(self.contains(d.0 - 1));
            },
            DateQuery::DateRange(from, to) => {
                if from.0 < to.0 {
                    assert(self.contains(from.0 as int));
                }
            },
        }
    }

    /// The constraint that a date meets when it meets both `self` and
    /// `rhs`.
    pub fn and(self, rhs: DateQuery) -> (r: DateQuery)
        ensures
            r == self.intersect(rhs),
    {
        match (self, rhs) {
            (DateQuery::FromDate(a), DateQuery::FromDate(b)) => DateQuery::FromDate(later(a, b)),
            (DateQuery::ToDate(a), DateQuery::ToDate(b)) => DateQuery::ToDate(earlier(a, b)),
            (DateQuery::Exact(a), DateQuery::Exact(b)) => {
                if a.0 != b.0 {
                    DateQuery::empty()
                } else {
                    DateQuery::Exact(a)
                }
            },
            (DateQuery::FromDate(a), DateQuery::Exact(b))
            | (DateQuery::Exact(b), DateQuery::FromDate(a)) => {
                if a.0 > b.0 {
                    DateQuery::empty()
                } else {
                    DateQuery::Exact(b)
                }
            },
            (DateQuery::ToDate(a), DateQuery::Exact(b))
            | (DateQuery::Exact(b), DateQuery::ToDate(a)) => {
                if b.0 >= a.0 {
                    DateQuery::empty()
                } else {
                    DateQuery::Exact(b)
                }
            },
            (DateQuery::Exact(a), DateQuery::DateRange(b_from, b_to))
            | (DateQuery::DateRange(b_from, b_to), DateQuery::Exact(a)) => {
                if b_from.0 > a.0 || b_to.0 <= a.0 {
                    DateQuery::empty()
                } else {
                    DateQuery::Exact(a)
                }
            },
            (DateQuery::FromDate(a), DateQuery::ToDate(b))
            | (DateQuery::ToDate(b), DateQuery::FromDate(a)) => {
                if a.0 >= b.0 {
                    DateQuery::empty()
                } else {
                    DateQuery::DateRange(a, b)
                }
            },
            (DateQuery::FromDate(a), DateQuery::DateRange(b_from, b_to))
            | (DateQuery::DateRange(b_from, b_to), DateQuery::FromDate(a)) => {
                let from = later(a, b_from);
                if from.0 >= b_to.0 {
                    DateQuery::empty()
                } else {
                    DateQuery::DateRange(from, b_to)
                }
            },
            (DateQuery::ToDate(a), DateQuery::DateRange(b_from, b_to))
            | (DateQuery::DateRange(b_from, b_to), DateQuery::ToDate(a)) => {
                let to = earlier(a, b_to);
                if b_from.0 >= to.0 {
                    DateQuery::empty()
                } else {
                    DateQuery::DateRange(b_from, to)
                }
            },
            (DateQuery::DateRange(a_from, a_to), DateQuery::DateRange(b_from, b_to)) => {
                let from = later(a_from, b_from);
                let to = earlier(a_to, b_to);
                if from.0 >= to.0 {
                    DateQuery::empty()
                } else {
                    DateQuery::DateRange(from, to)
                }
            },
        }
    }

    /// A date meets the intersection of two constraints exactly when it
    /// meets both.
    pub proof fn lemma_intersect_contains(self, rhs: DateQuery, day: int)
        ensures
            self.intersect(rhs).contains(day) <==> (self.contains(day) && rhs.contains(day)),
    {
    }

    /// Intersection does not depend on the order of its operands.
    pub proof fn lemma_intersect_commutative(self, rhs: DateQuery)
        ensures
            self.intersect(rhs) == rhs.intersect(self),
    {
    }

    /// Intersection does not depend on how its operands are grouped.
    pub proof fn lemma_intersect_associative(self, b: DateQuery, c: DateQuery)
        ensures
            self.intersect(b).intersect(c) == self.intersect(b.intersect(c)),
    {
        match self {
            DateQuery::Exact(_) => Self::lemma_associative_exact(self, b, c),
            DateQuery::FromDate(_) => Self::lemma_associative_from(self, b, c),
            DateQuery::ToDate(_) => Self::lemma_associative_to(self, b, c),
            DateQuery::DateRange(_, _) => Self::lemma_associative_range(self, b, c),
        }
    }

    proof fn lemma_associative_exact(a: DateQuery, b: DateQuery, c: DateQuery)
        requires
            a is Exact,
        ensures
            a.intersect(b).intersect(c) == a.intersect(b.intersect(c)),
    {
        match (b, c) {
            (DateQuery::Exact(_), DateQuery::Exact(_)) => {},
            (DateQuery::Exact(_), DateQuery::FromDate(_)) => {},
            (DateQuery::Exact(_), DateQuery::ToDate(_)) => {},
            (DateQuery::Exact(_), DateQuery::DateRange(_, _)) => {},
            (DateQuery::FromDate(_), DateQuery::Exact(_)) => {},
            (DateQuery::FromDate(_), DateQuery::FromDate(_)) => {},
            (DateQuery::FromDate(_), DateQuery::ToDate(_)) => {},
            (DateQuery::FromDate(_), DateQuery::DateRange(_, _)) => {},
            (DateQuery::ToDate(_), DateQuery::Exact(_)) => {},
            (DateQuery::ToDate(_), DateQuery::FromDate(_)) => {},
            (DateQuery::ToDate(_), DateQuery::ToDate(_)) => {},
            (DateQuery::ToDate(_), DateQuery::DateRange(_, _)) => {},
            (DateQuery::DateRange(_, _), DateQuery::Exact(_)) => {},
            (DateQuery::DateRange(_, _), DateQuery::FromDate(_)) => {},
            (DateQuery::DateRange(_, _), DateQuery::ToDate(_)) => {},
            (DateQuery::DateRange(_, _), DateQuery::DateRange(_, _)) => {},
        }
    }

    proof fn lemma_associative_from(a: DateQuery, b: DateQuery, c: DateQuery)
        requires
            a is FromDate,
        ensures
            a.intersect(b).intersect(c) == a.intersect(b.intersect(c)),
    {
        match (b, c) {
            (DateQuery::Exact(_), DateQuery::Exact(_)) => {},
            (DateQuery::Exact(_), DateQuery::FromDate(_)) => {},
            (DateQuery::Exact(_), DateQuery::ToDate(_)) => {},
            (DateQuery::Exact(_), DateQuery::DateRange(_, _)) => {},
            (DateQuery::FromDate(_), DateQuery::Exact(_)) => {},
            (DateQuery::FromDate(_), DateQuery::FromDate(_)) => {},
            (DateQuery::FromDate(_), DateQuery::ToDate(_)) => {},
            (DateQuery::FromDate(_), DateQuery::DateRange(_, _)) => {},
            (DateQuery::ToDate(_), DateQuery::Exact(_)) => {},
            (DateQuery::ToDate(_), DateQuery::FromDate(_)) => {},
            (DateQuery::ToDate(_), DateQuery::ToDate(_)) => {},
            (DateQuery::ToDate(_), DateQuery::DateRange(_, _)) => {},
            (DateQuery::DateRange(_, _), DateQuery::Exact(_)) => {},
            (DateQuery::DateRange(_, _), DateQuery::FromDate(_)) => {},
            (DateQuery::DateRange(_, _), DateQuery::ToDate(_)) => {},
            (DateQuery::DateRange(_, _), DateQuery::DateRange(_, _)) => {},
        }
    }

    proof fn lemma_associative_to(a: DateQuery, b: DateQuery, c: DateQuery)
        requires
            a is ToDate,
        ensures
            a.intersect(b).intersect(c) == a.intersect(b.intersect(c)),
    {
        match (b, c) {
            (DateQuery::Exact(_), DateQuery::Exact(_)) => {},
            (DateQuery::Exact(_), DateQuery::FromDate(_)) => {},
            (DateQuery::Exact(_), DateQuery::ToDate(_)) => {},
            (DateQuery::Exact(_), DateQuery::DateRange(_, _)) => {},
            (DateQuery::FromDate(_), DateQuery::Exact(_)) => {},
            (DateQuery::FromDate(_), DateQuery::FromDate(_)) => {},
            (DateQuery::FromDate(_), DateQuery::ToDate(_)) => {},
            (DateQuery::FromDate(_), DateQuery::DateRange(_, _)) => {},
            (DateQuery::ToDate(_), DateQuery::Exact(_)) => {},
            (DateQuery::ToDate(_), DateQuery::FromDate(_)) => {},
            (DateQuery::ToDate(_), DateQuery::ToDate(_)) => {},
            (DateQuery::ToDate(_), DateQuery::DateRange(_, _)) => {},
            (DateQuery::DateRange(_, _), DateQuery::Exact(_)) => {},
            (DateQuery::DateRange(_, _), DateQuery::FromDate(_)) => {},
            (DateQuery::DateRange(_, _), DateQuery::ToDate(_)) => {},
            (DateQuery::DateRange(_, _), DateQuery::DateRange(_, _)) => {},
        }
    }

    proof fn lemma_associative_range(a: DateQuery, b: DateQuery, c: DateQuery)
        requires
            a is DateRange,
        ensures
            a.intersect(b).intersect(c) == a.intersect(b.intersect(c)),
    {
        match (b, c) {
            (DateQuery::Exact(_), DateQuery::Exact(_)) => {},
            (DateQuery::Exact(_), DateQuery::FromDate(_)) => {},
            (DateQuery::Exact(_), DateQuery::ToDate(_)) => {},
            (DateQuery::Exact(_), DateQuery::DateRange(_, _)) => {},
            (DateQuery::FromDate(_), DateQuery::Exact(_)) => {},
            (DateQuery::FromDate(_), DateQuery::FromDate(_)) => {},
            (DateQuery::FromDate(_), DateQuery::ToDate(_)) => {},
            (DateQuery::FromDate(_), DateQuery::DateRange(_, _)) => {},
            (DateQuery::ToDate(_), DateQuery::Exact(_)) => {},
            (DateQuery::ToDate(_), DateQuery::FromDate(_)) => {},
            (DateQuery::ToDate(_), DateQuery::ToDate(_)) => {},
            (DateQuery::ToDate(_), DateQuery::DateRange(_, _)) => {},
            (DateQuery::DateRange(_, _), DateQuery::Exact(_)) => {},
            (DateQuery::DateRange(_, _), DateQuery::FromDate(_)) => {},
            (DateQuery::DateRange(_, _), DateQuery::ToDate(_)) => {},
            (DateQuery::DateRange(_, _), DateQuery::DateRange(_, _)) => {},
        }
    }

    /// A range that ends on or before its start is empty.
    pub proof fn lemma_degenerate_range_is_empty(from: Date, to: Date)
        requires
            from.0 >= to.0,
        ensures
            DateQuery::DateRange(from, to).spec_is_empty(),
            forall|day: int| !DateQuery::DateRange(from, to).contains(day),
    {
    }

    /// A date and a range intersect in the date where the range holds it,
    /// and in nothing where it does not.
    pub proof fn lemma_exact_meets_range(d: Date, from: Date, to: Date)
        ensures
            from.0 <= d.0 < to.0 ==> DateQuery::Exact(d).intersect(DateQuery::DateRange(from, to))
                == DateQuery::Exact(d),
            !(from.0 <= d.0 < to.0) ==> DateQuery::Exact(d).intersect(
                DateQuery::DateRange(from, to),
            ).spec_is_empty(),
            DateQuery::Exact(d).intersect(DateQuery::DateRange(from, to)) == DateQuery::Exact(d)
                <==> from.0 <= d.0 < to.0,
    {
    }
}

impl core::ops::BitAnd for DateQuery {
    type Output = DateQuery;

    /// The constraint that a date meets when it meets both `self` and
    /// `rhs`.
    fn bitand(self, rhs: DateQuery) -> (r: DateQuery) {
        self.and(rhs)
    }
}

impl vstd::std_specs::ops::BitAndSpecImpl for DateQuery {
    open spec fn obeys_bitand_spec() -> bool {
        true
    }

    open spec fn bitand_req(self, rhs: DateQuery) -> bool {
        true
    }

    open spec fn bitand_spec(self, rhs: DateQuery) -> DateQuery {
        self.intersect(rhs)
    }
}

impl DateQuery {
    /// The positions between which the records that meet the constraint
    /// stand in a sorted table: from the first, up to the second.
    pub open spec fn span(self, records: Seq<Holiday>) -> (int, int) {
        match self {
            DateQuery::Exact(d) => (lower_bound(records, d.0 as int), lower_bound(records, d.0 + 1)),
            DateQuery::FromDate(d) => (lower_bound(records, d.0 as int), records.len() as int),
            DateQuery::ToDate(d) => (0, lower_bound(records, d.0 as int)),
            DateQuery::DateRange(from, to) => (
                lower_bound(records, from.0 as int),
                lower_bound(records, to.0 as int),
            ),
        }
    }

    /// The records between the positions of the span are those that meet
    /// the constraint.
    pub proof fn lemma_span(self, records: Seq<Holiday>, p: int)
        requires
            strictly_sorted(records),
            0 <= p < records.len(),
        ensures
            0 <= self.span(records).0 <= records.len(),
            0 <= self.span(records).1 <= records.len(),
            self.span(records).0 <= p < self.span(records).1 <==> self.contains(
                records[p].date.0 as int,
            ),
    {
        match self {
            DateQuery::Exact(d) => {
                lemma_lower_bound(records, d.0 as int);
                lemma_lower_bound(records, d.0 + 1);
            },
            DateQuery::FromDate(d) => {
                lemma_lower_bound(records, d.0 as int);
            },
            DateQuery::ToDate(d) => {
                lemma_lower_bound(records, d.0 as int);
            },
            DateQuery::DateRange(from, to) => {
                lemma_lower_bound(records, from.0 as int);
                lemma_lower_bound(records, to.0 as int);
            },
        }
    }

    /// The positions between which the records that meet the constraint
    /// stand in the table of `data`.
    pub fn as_data_range(&self, data: &Dataset) -> (r: Range<usize>)
        ensures
            r.start == self.span(data.records()).0,
            r.end == self.span(data.records()).1,
    {
        proof {
            use_type_invariant(data);
            data.lemma_wf();
        }
        match self {
            DateQuery::DateRange(from, to) => Range {
                start: data.lower_bound_of(*from),
                end: data.lower_bound_of(*to),
            },
            DateQuery::FromDate(date) => Range { start: data.lower_bound_of(*date), end: data.len() },
            DateQuery::ToDate(date) => Range { start: 0, end: data.lower_bound_of(*date) },
            DateQuery::Exact(date) => {
                let start = data.lower_bound_of(*date);
                let end = if date.0 == isize::MAX {
                    proof {
                        lemma_lower_bound_unique(
                            data.records(),
                            date.0 + 1,
                            data.records().len() as int,
                        );
                    }
                    data.len()
                } else {
                    data.lower_bound_of(Date(date.0 + 1))
                };
                Range { start, end }
            },
        }
    }
}

} // verus!
