//! Queries: a set of countries with an optional constraint on the date,
//! and the holidays that a query asks for.

use crate::calendar::civil_to_days;
use crate::country::{Country, CountrySet, COUNTRY_COUNT};
use crate::data::{lists_country, Dataset};
use crate::date::Date;
use crate::date_query::{DateQuery, Limit};
use crate::records::{
    lemma_selected, lemma_selected_listed, selected, stands_before, strictly_sorted, Holiday,
};
use vstd::prelude::*;

verus! {

/// The way in which a pass finds the holidays that a query asks for.
#[derive(Clone, Copy, Debug, PartialEq, Eq, Structural)]
pub enum Strategy {
    /// No date meets the constraint: nothing is looked up.
    Empty,
    /// One date is asked for: the exact-match table is probed once for
    /// each country, in ascending order of the countries.
    Exact,
    /// A range of dates is asked for: the slice of the table that holds the
    /// range is scanned for the records of the countries.
    DateRange,
    /// Every date is asked for: the position lists of the countries are
    /// merged.
    NoDate,
}

/// The strategy that suits a query with the constraint `filter` on the
/// date.
pub open spec fn planned(filter: Option<DateQuery>) -> Strategy {
    match filter {
        None => Strategy::NoDate,
        Some(filter) => if filter.spec_is_empty() {
            Strategy::Empty
        } else if filter is Exact {
            Strategy::Exact
        } else {
            Strategy::DateRange
        },
    }
}

/// The records of the countries of `countries` that meet the constraint
/// `filter`, where there is one, in table order.
pub open spec fn matching(records: Seq<Holiday>, countries: Set<int>, filter: Option<DateQuery>) -> Seq<
    Holiday,
> {
    match filter {
        None => selected(records, countries, 0, records.len() as int),
        Some(q) => selected(records, countries, q.span(records).0, q.span(records).1),
    }
}

/// Whether a holiday of country `ordinal` on day `day` is asked for by the
/// countries `countries` and the constraint `filter`.
pub open spec fn asked_for(countries: Set<int>, filter: Option<DateQuery>, ordinal: int, day: int) -> bool {
    countries.contains(ordinal) && match filter {
        None => true,
        Some(q) => q.contains(day),
    }
}

/// The matching records are the records that are asked for, and they
/// stand in table order.
pub proof fn lemma_matching(records: Seq<Holiday>, countries: Set<int>, filter: Option<DateQuery>)
    requires
        strictly_sorted(records),
    ensures
        forall|h: Holiday|
            matching(records, countries, filter).contains(h) <==> exists|p: int|
                0 <= p < records.len() && #[trigger] records[p] == h && asked_for(
                    countries,
                    filter,
                    h.code.ordinal(),
                    h.date.0 as int,
                ),
        strictly_sorted(matching(records, countries, filter)),
{
    let (lo, hi) = match filter {
        None => (0int, records.len() as int),
        Some(q) => q.span(records),
    };
    if records.len() > 0 {
        if let Some(q) = filter {
            q.lemma_span(records, 0);
        }
        lemma_selected(records, countries, lo, hi);
    }
    assert forall|h: Holiday|
        matching(records, countries, filter).contains(h) <==> exists|p: int|
            0 <= p < records.len() && #[trigger] records[p] == h && asked_for(
                countries,
                filter,
                h.code.ordinal(),
                h.date.0 as int,
            ) by {
        if matching(records, countries, filter).contains(h) {
            let p = choose|p: int|
                lo <= p < hi && countries.contains((#[trigger] records[p]).code.ordinal())
                    && records[p] == h;
            if let Some(q) = filter {
                q.lemma_span(records, p);
            }
            assert(0 <= p < records.len() && records[p] == h);
        }
        if exists|p: int|
            0 <= p < records.len() && #[trigger] records[p] == h && asked_for(
                countries,
                filter,
                h.code.ordinal(),
                h.date.0 as int,
            ) {
            let p = choose|p: int|
                0 <= p < records.len() && #[trigger] records[p] == h && asked_for(
                    countries,
                    filter,
                    h.code.ordinal(),
                    h.date.0 as int,
                );
            if let Some(q) = filter {
                q.lemma_span(records, p);
            }
            assert(lo <= p < hi && countries.contains(records[p].code.ordinal()) && records[p]
                == h);
        }
    }
}

/// Probing for one date yields what a scan yields on that date, where
/// the scan is of the whole table or of a range that holds the date: the
/// same holidays, and no other. It also yields, one by one, what a scan of
/// the range of that one day yields.
pub proof fn lemma_exact_is_scan_of_day(
    records: Seq<Holiday>,
    countries: Set<int>,
    date: Date,
    scan: Option<DateQuery>,
)
    requires
        strictly_sorted(records),
        scan matches Some(range) ==> range.contains(date.0 as int),
    ensures
        forall|h: Holiday|
            matching(records, countries, Some(DateQuery::Exact(date))).contains(h) <==> matching(
                records,
                countries,
                scan,
            ).contains(h) && h.date == date,
        date.0 < isize::MAX ==> matching(records, countries, Some(DateQuery::Exact(date)))
            == matching(
            records,
            countries,
            Some(DateQuery::DateRange(date, Date((date.0 + 1) as isize))),
        ),
{
    lemma_matching(records, countries, Some(DateQuery::Exact(date)));
    lemma_matching(records, countries, scan);
    assert forall|h: Holiday|
        matching(records, countries, Some(DateQuery::Exact(date))).contains(h) <==> matching(
            records,
            countries,
            scan,
        ).contains(h) && h.date == date by {
        if matching(records, countries, scan).contains(h) && h.date == date {
            let p = choose|p: int|
                0 <= p < records.len() && #[trigger] records[p] == h && asked_for(
                    countries,
                    scan,
                    h.code.ordinal(),
                    h.date.0 as int,
                );
            assert(asked_for(
                countries,
                Some(DateQuery::Exact(date)),
                h.code.ordinal(),
                h.date.0 as int,
            ));
        }
        if matching(records, countries, Some(DateQuery::Exact(date))).contains(h) {
            let p = choose|p: int|
                0 <= p < records.len() && #[trigger] records[p] == h && asked_for(
                    countries,
                    Some(DateQuery::Exact(date)),
                    h.code.ordinal(),
                    h.date.0 as int,
                );
            assert(asked_for(countries, scan, h.code.ordinal(), h.date.0 as int));
        }
    }
}

/// A query without a constraint on the date yields holidays in table
/// order: no holiday comes before one of an earlier day.
pub proof fn lemma_no_date_in_order(records: Seq<Holiday>, countries: Set<int>, i: int, j: int)
    requires
        strictly_sorted(records),
        0 <= i <= j < matching(records, countries, None).len(),
    ensures
        matching(records, countries, None)[i].date.0 <= matching(records, countries, None)[j].date.0,
{
    lemma_matching(records, countries, None);
    if i < j {
        assert(stands_before(
            matching(records, countries, None)[i],
            matching(records, countries, None)[j],
        ));
    }
}

/// A query for one country without a constraint on the date yields the
/// records at the positions of that country's position list, in the order
/// of the list.
pub proof fn lemma_single_country(data: &Dataset, ordinal: int)
    requires
        data.wf(),
        0 <= ordinal < COUNTRY_COUNT,
    ensures
        matching(data.records(), Set::<int>::empty().insert(ordinal), None) == Seq::new(
            data.positions(ordinal).len(),
            |t: int| data.records()[data.positions(ordinal)[t] as int],
        ),
{
    data.lemma_wf();
    let records = data.records();
    let positions = data.positions(ordinal);
    let only = Set::<int>::empty().insert(ordinal);
    assert(lists_country(records, ordinal, positions));
    lemma_selected_listed(records, only, 0, records.len() as int, positions);
}

/// A query: the holidays of a set of countries, on the dates that meet a
/// constraint where there is one.
#[derive(Clone, Copy, Debug)]
pub struct Query {
    /// The countries whose holidays are asked for.
    pub countries: CountrySet,
    /// The constraint on the date; `None` asks for every date.
    pub date_filter: Option<DateQuery>,
}

impl Query {
    /// The constraint on the date of two queries joined: the constraint of
    /// the one that has one, and the intersection where both have one.
    pub open spec fn joined_filter(a: Option<DateQuery>, b: Option<DateQuery>) -> Option<
        DateQuery,
    > {
        match (a, b) {
            (None, Some(it)) => Some(it),
            (Some(it), None) => Some(it),
            (Some(a), Some(b)) => Some(a.intersect(b)),
            (None, None) => None,
        }
    }

    /// The query for the holidays of every country on every date.
    pub fn all() -> (r: Query)
        ensures
            forall|i: int| r.countries@.contains(i) <==> 0 <= i < COUNTRY_COUNT,
            r.date_filter is None,
    {
        Query { countries: CountrySet::all(), date_filter: None }
    }

    /// The query that names no country and no date: joined to another
    /// query, it leaves that query as it is.
    pub fn none() -> (r: Query)
        ensures
            r.countries@ == Set::<int>::empty(),
            r.date_filter is None,
    {
        Query { countries: CountrySet::new(), date_filter: None }
    }

    /// The query for the holidays of `value`.
    pub fn country(value: Country) -> (r: Query)
        ensures
            r.countries@ == Set::<int>::empty().insert(value.ordinal()),
            r.date_filter is None,
    {
        let mut countries = CountrySet::new();
        countries.insert(value);
        Query { countries, date_filter: None }
    }

    /// The query for the holidays of the countries of `value`.
    pub fn countries(value: &[Country]) -> (r: Query)
        ensures
            forall|i: int|
                r.countries@.contains(i) <==> exists|k: int|
                    0 <= k < value@.len() && #[trigger] value@[k].ordinal() == i,
            r.date_filter is None,
    {
        let mut countries = CountrySet::new();
        countries.extend(value);
        Query { countries, date_filter: None }
    }

    /// The query for the dates of year `value`, of no country yet.
    pub fn year(value: isize) -> (r: Query)
        requires
            isize::MIN <= civil_to_days(value as int, 1, 1),
            civil_to_days(value + 1, 1, 1) <= isize::MAX,
        ensures
            r.countries@ == Set::<int>::empty(),
            r.date_filter == Some(
                DateQuery::DateRange(
                    Date(civil_to_days(value as int, 1, 1) as isize),
                    Date(civil_to_days(value + 1, 1, 1) as isize),
                ),
            ),
    {
        Query { countries: CountrySet::new(), date_filter: Some(DateQuery::year(value)) }
    }

    /// The query for the dates of a range of years, of no country yet.
    pub fn year_range(start: Limit<isize>, end: Limit<isize>) -> (r: Query)
        requires
            DateQuery::year_fits(DateQuery::first_year(start)),
            DateQuery::year_fits(DateQuery::end_year(end)),
        ensures
            r.countries@ == Set::<int>::empty(),
            r.date_filter == DateQuery::spec_year_range(start, end),
    {
        Query { countries: CountrySet::new(), date_filter: DateQuery::year_range(start, end) }
    }

    /// The query for the date `value`, of no country yet.
    pub fn date(value: Date) -> (r: Query)
        ensures
            r.countries@ == Set::<int>::empty(),
            r.date_filter == Some(DateQuery::Exact(value)),
    {
        Query { countries: CountrySet::new(), date_filter: Some(DateQuery::date(value)) }
    }

    /// The query for the dates of a range of dates, of no country yet.
    pub fn date_range(start: Limit<Date>, end: Limit<Date>) -> (r: Query)
        ensures
            r.countries@ == Set::<int>::empty(),
            r.date_filter == DateQuery::spec_date_range(start, end),
    {
        Query { countries: CountrySet::new(), date_filter: DateQuery::date_range(start, end) }
    }

    /// The constraints on the date of two queries, joined.
    fn join_filters(a: Option<DateQuery>, b: Option<DateQuery>) -> (r: Option<DateQuery>)
        ensures
            r == Self::joined_filter(a, b),
    {
        match (a, b) {
            (None, Some(it)) => Some(it),
            (Some(it), None) => Some(it),
            (Some(a), Some(b)) => Some(a.and(b)),
            (None, None) => None,
        }
    }

    /// The two queries joined: the countries of both, on the dates that
    /// meet the constraints of both.
    pub fn and(self, other: Query) -> (r: Query)
        ensures
            r.countries == self.countries.spec_union(other.countries),
            r.countries@ == self.countries@.union(other.countries@),
            r.date_filter == Self::joined_filter(self.date_filter, other.date_filter),
    {
        Query {
            countries: self.countries.union(other.countries),
            date_filter: Self::join_filters(self.date_filter, other.date_filter),
        }
    }

    /// The two queries narrowed to each other: the countries that both
    /// name, on the dates that meet the constraints of both.
    pub open spec fn narrowed(self, rhs: Query) -> Query {
        Query {
            countries: self.countries.spec_intersection(rhs.countries),
            date_filter: Self::joined_filter(self.date_filter, rhs.date_filter),
        }
    }

    /// The holidays that the query asks for, in table order.
    pub open spec fn results(self, data: &Dataset) -> Seq<Holiday> {
        matching(data.records(), self.countries@, self.date_filter)
    }
}

impl core::ops::BitAnd for Query {
    type Output = Query;

    /// The two queries narrowed to each other: the countries that both
    /// name, on the dates that meet the constraints of both.
    fn bitand(self, rhs: Query) -> (r: Query)
        ensures
            r.countries@ == self.countries@.intersect(rhs.countries@),
            r.date_filter == Self::joined_filter(self.date_filter, rhs.date_filter),
    {
        Query {
            countries: self.countries.intersection(rhs.countries),
            date_filter: Self::join_filters(self.date_filter, rhs.date_filter),
        }
    }
}

impl vstd::std_specs::ops::BitAndSpecImpl for Query {
    open spec fn obeys_bitand_spec() -> bool {
        true
    }

    open spec fn bitand_req(self, rhs: Query) -> bool {
        true
    }

    open spec fn bitand_spec(self, rhs: Query) -> Query {
        self.narrowed(rhs)
    }
}

} // verus!
