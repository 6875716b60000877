use holidays::DateQuery::{DateRange, Exact, FromDate, ToDate};
use holidays::Limit::{Excluded, Included, Unbounded};
use holidays::{Country, CountrySet, Date, DateQuery, Limit, Query};

fn d(days: isize) -> Date {
    Date(days)
}

const EMPTY: DateQuery = DateRange(Date(0), Date(0));

#[test]
fn a_range_that_ends_on_or_before_its_start_is_empty() {
    assert!(DateRange(d(5), d(5)).is_empty());
    assert!(DateRange(d(6), d(5)).is_empty());
    assert!(!DateRange(d(5), d(6)).is_empty());
    assert!(DateQuery::empty().is_empty());
    assert_eq!(DateQuery::empty(), EMPTY);
    assert!(!Exact(d(5)).is_empty());
    assert!(!FromDate(d(isize::MAX)).is_empty());
    assert!(!ToDate(d(isize::MIN)).is_empty());
}

#[test]
fn an_exact_date_meets_a_range_where_the_range_holds_it() {
    assert_eq!(Exact(d(5)).and(DateRange(d(5), d(9))), Exact(d(5)));
    assert_eq!(Exact(d(8)).and(DateRange(d(5), d(9))), Exact(d(8)));
    assert_eq!(DateRange(d(5), d(9)).and(Exact(d(8))), Exact(d(8)));
    assert!(Exact(d(9)).and(DateRange(d(5), d(9))).is_empty());
    assert!(Exact(d(4)).and(DateRange(d(5), d(9))).is_empty());
    assert_eq!(Exact(d(4)).and(DateRange(d(5), d(9))), EMPTY);
}

#[test]
fn bounds_of_one_direction_take_the_tighter() {
    assert_eq!(FromDate(d(3)).and(FromDate(d(7))), FromDate(d(7)));
    assert_eq!(FromDate(d(7)).and(FromDate(d(3))), FromDate(d(7)));
    assert_eq!(ToDate(d(3)).and(ToDate(d(7))), ToDate(d(3)));
    assert_eq!(ToDate(d(7)).and(ToDate(d(3))), ToDate(d(3)));
}

#[test]
fn an_exact_date_meets_a_bound_that_it_satisfies() {
    assert_eq!(Exact(d(5)).and(Exact(d(5))), Exact(d(5)));
    assert_eq!(Exact(d(5)).and(Exact(d(6))), EMPTY);
    assert_eq!(Exact(d(5)).and(FromDate(d(5))), Exact(d(5)));
    assert_eq!(FromDate(d(5)).and(Exact(d(5))), Exact(d(5)));
    assert_eq!(Exact(d(5)).and(FromDate(d(6))), EMPTY);
    assert_eq!(Exact(d(5)).and(ToDate(d(6))), Exact(d(5)));
    assert_eq!(ToDate(d(6)).and(Exact(d(5))), Exact(d(5)));
    assert_eq!(Exact(d(5)).and(ToDate(d(5))), EMPTY);
}

#[test]
fn opposite_bounds_make_a_range() {
    assert_eq!(FromDate(d(3)).and(ToDate(d(7))), DateRange(d(3), d(7)));
    assert_eq!(ToDate(d(7)).and(FromDate(d(3))), DateRange(d(3), d(7)));
    assert_eq!(FromDate(d(7)).and(ToDate(d(7))), EMPTY);
    assert_eq!(FromDate(d(8)).and(ToDate(d(7))), EMPTY);
}

#[test]
fn a_bound_narrows_the_edge_of_a_range() {
    assert_eq!(FromDate(d(5)).and(DateRange(d(3), d(9))), DateRange(d(5), d(9)));
    assert_eq!(DateRange(d(3), d(9)).and(FromDate(d(1))), DateRange(d(3), d(9)));
    assert_eq!(FromDate(d(9)).and(DateRange(d(3), d(9))), EMPTY);
    assert_eq!(ToDate(d(5)).and(DateRange(d(3), d(9))), DateRange(d(3), d(5)));
    assert_eq!(DateRange(d(3), d(9)).and(ToDate(d(20))), DateRange(d(3), d(9)));
    assert_eq!(ToDate(d(3)).and(DateRange(d(3), d(9))), EMPTY);
}

#[test]
fn two_ranges_meet_in_their_overlap() {
    assert_eq!(DateRange(d(1), d(6)).and(DateRange(d(4), d(9))), DateRange(d(4), d(6)));
    assert_eq!(DateRange(d(4), d(9)).and(DateRange(d(1), d(6))), DateRange(d(4), d(6)));
    assert_eq!(DateRange(d(1), d(9)).and(DateRange(d(4), d(6))), DateRange(d(4), d(6)));
    assert_eq!(DateRange(d(1), d(4)).and(DateRange(d(4), d(9))), EMPTY);
    assert_eq!(DateRange(d(1), d(3)).and(DateRange(d(5), d(9))), EMPTY);
    assert_eq!(DateRange(d(5), d(3)).and(DateRange(d(1), d(9))), EMPTY);
}

#[test]
fn intersection_laws_on_examples() {
    let all = [
        Exact(d(4)),
        Exact(d(8)),
        FromDate(d(2)),
        FromDate(d(6)),
        ToDate(d(5)),
        ToDate(d(9)),
        DateRange(d(1), d(7)),
        DateRange(d(4), d(12)),
        DateRange(d(9), d(3)),
        EMPTY,
    ];
    for a in all {
        for b in all {
            assert_eq!(a.and(b), b.and(a));
            for c in all {
                assert_eq!(a.and(b).and(c), a.and(b.and(c)));
            }
        }
    }
}

#[test]
fn the_dates_of_a_year() {
    assert_eq!(DateQuery::year(1970), DateRange(d(0), d(365)));
    assert_eq!(
        DateQuery::year(2024),
        DateRange(Date::from_ymd(2024, 1, 1), Date::from_ymd(2025, 1, 1))
    );
    assert_eq!(DateQuery::date(d(7)), Exact(d(7)));
}

#[test]
fn ranges_of_years() {
    let y = |year: isize| Date::from_year(year);
    assert_eq!(DateQuery::year_range(Unbounded, Unbounded), None);
    assert_eq!(DateQuery::year_range(Included(2025), Included(2026)), Some(DateRange(y(2025), y(2027))));
    assert_eq!(DateQuery::year_range(Included(2025), Excluded(2026)), Some(DateRange(y(2025), y(2026))));
    assert_eq!(DateQuery::year_range(Excluded(2025), Excluded(2027)), Some(DateRange(y(2026), y(2027))));
    assert_eq!(DateQuery::year_range(Included(2025), Unbounded), Some(FromDate(y(2025))));
    assert_eq!(DateQuery::year_range(Excluded(2025), Unbounded), Some(FromDate(y(2026))));
    assert_eq!(DateQuery::year_range(Unbounded, Included(2025)), Some(ToDate(y(2026))));
    assert_eq!(DateQuery::year_range(Unbounded, Excluded(2025)), Some(ToDate(y(2025))));
}

#[test]
fn ranges_of_dates() {
    assert_eq!(DateQuery::date_range(Unbounded, Unbounded), None);
    assert_eq!(DateQuery::date_range(Included(d(3)), Included(d(7))), Some(DateRange(d(3), d(8))));
    assert_eq!(DateQuery::date_range(Included(d(3)), Excluded(d(7))), Some(DateRange(d(3), d(7))));
    assert_eq!(DateQuery::date_range(Excluded(d(3)), Excluded(d(7))), Some(DateRange(d(4), d(7))));
    assert_eq!(DateQuery::date_range(Excluded(d(3)), Included(d(7))), Some(DateRange(d(4), d(8))));
    assert_eq!(DateQuery::date_range(Included(d(3)), Unbounded), Some(FromDate(d(3))));
    assert_eq!(DateQuery::date_range(Excluded(d(3)), Unbounded), Some(FromDate(d(4))));
    assert_eq!(DateQuery::date_range(Unbounded, Included(d(7))), Some(ToDate(d(8))));
    assert_eq!(DateQuery::date_range(Unbounded, Excluded(d(7))), Some(ToDate(d(7))));
    assert_eq!(DateQuery::date_range(Included(d(7)), Excluded(d(3))), Some(DateRange(d(7), d(3))));
}

#[test]
fn ranges_of_dates_at_the_last_date_of_all() {
    let last = d(isize::MAX);
    assert_eq!(DateQuery::date_range(Unbounded, Included(last)), None);
    assert_eq!(DateQuery::date_range(Included(d(3)), Included(last)), Some(FromDate(d(3))));
    assert_eq!(DateQuery::date_range(Excluded(last), Unbounded), Some(EMPTY));
    assert_eq!(DateQuery::date_range(Excluded(last), Included(last)), Some(EMPTY));
    assert_eq!(DateQuery::date_range(Included(last), Included(last)), Some(FromDate(last)));
    assert_eq!(DateQuery::date_range(Included(last), Excluded(last)), Some(DateRange(last, last)));
}

fn country(ordinal: u16) -> Country {
    Country::new(ordinal).unwrap()
}

fn ordinals_of(set: &CountrySet) -> Vec<usize> {
    let mut pass = set.iter();
    let mut found = Vec::new();
    while let Some(next) = pass.next() {
        found.push(next.index());
    }
    found
}

#[test]
fn queries_name_countries_or_dates() {
    let q = Query::country(country(7));
    assert_eq!(ordinals_of(&q.countries), vec![7]);
    assert_eq!(q.date_filter, None);
    let q = Query::countries(&[country(9), country(7)]);
    assert_eq!(ordinals_of(&q.countries), vec![7, 9]);
    assert_eq!(q.date_filter, None);
    let q = Query::date(d(3));
    assert_eq!(ordinals_of(&q.countries), Vec::<usize>::new());
    assert_eq!(q.date_filter, Some(Exact(d(3))));
    let q = Query::year(1970);
    assert_eq!(q.date_filter, Some(DateRange(d(0), d(365))));
    let q = Query::year_range(Limit::Included(1970), Limit::Unbounded);
    assert_eq!(q.date_filter, Some(FromDate(d(0))));
    let q = Query::date_range(Limit::Included(d(1)), Limit::Included(d(2)));
    assert_eq!(q.date_filter, Some(DateRange(d(1), d(3))));
    assert_eq!(Query::all().countries, CountrySet::all());
    assert_eq!(Query::none().countries, CountrySet::new());
}

#[test]
fn joining_queries_unites_countries_and_intersects_dates() {
    let a = Query::country(country(7)).and(Query::date_range(Limit::Included(d(1)), Limit::Unbounded));
    assert_eq!(ordinals_of(&a.countries), vec![7]);
    assert_eq!(a.date_filter, Some(FromDate(d(1))));
    let b = a.and(Query::country(country(9)).and(Query::date_range(Limit::Unbounded, Limit::Excluded(d(5)))));
    assert_eq!(ordinals_of(&b.countries), vec![7, 9]);
    assert_eq!(b.date_filter, Some(DateRange(d(1), d(5))));
    let c = Query::country(country(7)).and(Query::country(country(9)));
    assert_eq!(c.date_filter, None);
}

#[test]
fn narrowing_queries_intersects_countries_and_dates() {
    let a = Query::countries(&[country(7), country(9)]).and(Query::date(d(3)));
    let b = Query::countries(&[country(9), country(11)]).and(Query::year(1970));
    let both = a & b;
    assert_eq!(ordinals_of(&both.countries), vec![9]);
    assert_eq!(both.date_filter, Some(Exact(d(3))));
}

#[test]
fn the_operators_are_the_named_operations() {
    assert_eq!(FromDate(d(3)) & ToDate(d(7)), FromDate(d(3)).and(ToDate(d(7))));
    assert_eq!(Exact(d(3)) & Exact(d(4)), EMPTY);
    let a = Query::countries(&[country(7), country(9)]).countries;
    let b = Query::countries(&[country(9), country(11)]).countries;
    assert_eq!(a | b, a.union(b));
    assert_eq!(a & b, a.intersection(b));
    assert_eq!(ordinals_of(&(a | b)), vec![7, 9, 11]);
    assert_eq!(ordinals_of(&(a & b)), vec![9]);
}
