use holidays::country::COUNTRY_COUNT;
use holidays::DateQuery::{DateRange, Exact, FromDate};
use holidays::Limit::{Excluded, Included, Unbounded};
use holidays::{Any, Country, CountrySelection, CountrySet, Date, DateSelection};

fn country(ordinal: u16) -> Country {
    Country::new(ordinal).unwrap()
}

fn ordinals_of(set: &CountrySet) -> Vec<usize> {
    let mut pass = set.iter();
    let mut found = Vec::new();
    while let Some(next) = pass.next() {
        found.push(next.index());
    }
    found
}

#[test]
fn selections_of_countries_become_queries() {
    let all = CountrySelection::from(Any).into_query();
    assert_eq!(ordinals_of(&all.countries).len(), COUNTRY_COUNT);
    assert_eq!(all.date_filter, None);
    let none: Option<Country> = None;
    assert_eq!(ordinals_of(&CountrySelection::from(none).into_query().countries).len(), COUNTRY_COUNT);
    let one = CountrySelection::from(Some(country(3))).into_query();
    assert_eq!(ordinals_of(&one.countries), vec![3]);
    let one = CountrySelection::from(country(4)).into_query();
    assert_eq!(ordinals_of(&one.countries), vec![4]);
    let many = CountrySelection::from(vec![country(9), country(4), country(9)]).into_query();
    assert_eq!(ordinals_of(&many.countries), vec![4, 9]);
    let many = CountrySelection::many(&[country(149), country(0)]).into_query();
    assert_eq!(ordinals_of(&many.countries), vec![0, 149]);
    assert_eq!(many.date_filter, None);
}

#[test]
fn selections_of_dates_become_queries() {
    let any = DateSelection::from(Any).into_query();
    assert_eq!(any.date_filter, None);
    assert_eq!(ordinals_of(&any.countries), Vec::<usize>::new());
    assert_eq!(DateSelection::from(Any), DateSelection::All);
    assert_eq!(DateSelection::from(Option::<Date>::None), DateSelection::All);
    assert_eq!(DateSelection::from(Some(Date(3))), DateSelection::One(Date(3)));
    assert_eq!(DateSelection::from(Date(3)).into_query().date_filter, Some(Exact(Date(3))));
    let range = DateSelection::from((Included(Date(3)), Excluded(Date(9))));
    assert_eq!(range, DateSelection::Range(Included(Date(3)), Excluded(Date(9))));
    assert_eq!(range.into_query().date_filter, Some(DateRange(Date(3), Date(9))));
    let open = DateSelection::from((Excluded(Date(3)), Unbounded)).into_query();
    assert_eq!(open.date_filter, Some(FromDate(Date(4))));
    assert_eq!(ordinals_of(&open.countries), Vec::<usize>::new());
    let whole = DateSelection::from((Unbounded, Unbounded)).into_query();
    assert_eq!(whole.date_filter, None);
}
