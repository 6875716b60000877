use holidays::country::COUNTRY_COUNT;
use holidays::Limit::{Excluded, Included, Unbounded};
use holidays::{
    get_bounding_entries, get_holidays, is_holiday, Any, BuildError, Country, CountrySelection,
    CountrySet, Dataset, Date, DateConversionError, DateExt, DateQuery, DateSelection, Holiday,
    Iter, Query, Strategy,
};
use std::time::SystemTime;

const DE: u16 = 35;
const FR: u16 = 47;
const HR: u16 = 62;
const JP: u16 = 70;
const US: u16 = 140;
const XX: u16 = 149;

fn country(ordinal: u16) -> Country {
    Country::new(ordinal).unwrap()
}

fn holiday(code: u16, y: isize, m: u8, d: u8, name: &'static str) -> Holiday {
    Holiday { code: country(code), date: Date::from_ymd(y, m, d), name }
}

fn records() -> Vec<Holiday> {
    vec![
        holiday(US, 2023, 12, 25, "Christmas Day"),
        holiday(DE, 2025, 1, 1, "Neujahr"),
        holiday(FR, 2025, 1, 1, "Jour de l'an"),
        holiday(JP, 2025, 1, 1, "New Year's Day"),
        holiday(US, 2025, 1, 1, "New Year's Day"),
        holiday(US, 2025, 7, 4, "Independence Day"),
        holiday(FR, 2025, 7, 14, "Fete nationale"),
        holiday(JP, 2025, 9, 23, "Autumnal Equinox"),
        holiday(DE, 2025, 12, 25, "Erster Weihnachtstag"),
        holiday(FR, 2025, 12, 25, "Noel"),
        holiday(US, 2025, 12, 25, "Christmas Day"),
        holiday(DE, 2025, 12, 26, "Zweiter Weihnachtstag"),
        holiday(DE, 2026, 1, 1, "Neujahr"),
        holiday(FR, 2026, 1, 1, "Jour de l'an"),
        holiday(HR, 2026, 1, 1, "Nova godina"),
        holiday(JP, 2026, 1, 1, "New Year's Day"),
        holiday(US, 2026, 1, 1, "New Year's Day"),
    ]
}

fn sample() -> Dataset {
    Dataset::build(records()).unwrap()
}

fn drain(mut pass: Iter) -> Vec<Holiday> {
    let mut found = Vec::new();
    while let Some(next) = pass.next() {
        found.push(next);
    }
    assert!(pass.next().is_none());
    found
}

fn ask(data: &Dataset, countries: CountrySelection, date: DateSelection) -> Vec<Holiday> {
    drain(get_holidays(data, countries, date))
}

fn filtered(countries: &[u16], keep: impl Fn(Date) -> bool) -> Vec<Holiday> {
    records()
        .into_iter()
        .filter(|h| countries.contains(&(h.code.index() as u16)) && keep(h.date))
        .collect()
}

fn many(countries: &[u16]) -> CountrySelection {
    let list: Vec<Country> = countries.iter().map(|&c| country(c)).collect();
    CountrySelection::many(&list)
}

fn on(y: isize, m: u8, d: u8) -> DateSelection {
    DateSelection::from(Date::from_ymd(y, m, d))
}

#[test]
fn test_name() {
    let data = sample();
    let holidays = get_holidays(&data, CountrySelection::from(Any), on(2025, 1, 1));
    let o = drain(holidays).len();
    println!("{o} countries celebrated New Year!");
    assert_eq!(o, 4);
}

#[test]
fn date_ext_type_interface() {
    let data = sample();
    let time = Date::from_system_time(&SystemTime::now()).unwrap();

    let country_opt: Option<Country> = None;

    let _ = time.holidays(&data, Any.into());
    let _ = time.holidays(&data, country_opt.into());
    let _ = time.holidays(&data, country(US).into());
    let _ = time.holidays(&data, CountrySelection::many(&[country(US), country(JP)]));
    let _ = time.holidays(&data, CountrySelection::many(&[country(US), country(JP)][..]));
    let _ = time.holidays(&data, vec![country(DE), country(HR)].into());

    let time_ref = &time;

    let _ = time_ref.holidays(&data, Any.into());
    let _ = time_ref.holidays(&data, country_opt.into());
    let _ = time_ref.holidays(&data, country(US).into());
    let _ = time_ref.holidays(&data, CountrySelection::many(&[country(US), country(JP)]));
    let _ = time_ref.holidays(&data, CountrySelection::many(&[country(US), country(JP)][..]));
    let _ = time_ref.holidays(&data, vec![country(DE), country(HR)].into());

    let time_range = (Included(time), Excluded(time));

    let _ = time_range.holidays(&data, Any.into());
    let _ = time_range.holidays(&data, country_opt.into());
    let _ = time_range.holidays(&data, country(US).into());
    let _ = time_range.holidays(&data, CountrySelection::many(&[country(US), country(JP)]));
    let _ = time_range.holidays(&data, CountrySelection::many(&[country(US), country(JP)][..]));
    let _ = time_range.holidays(&data, vec![country(DE), country(HR)].into());

    let _ = time.is_holiday(&data, Any.into());
    let _ = time_ref.is_holiday(&data, country_opt.into());
    let _ = time_range.is_holiday(&data, vec![country(DE), country(HR)].into());
}

#[test]
fn date_ext_asks_what_get_holidays_asks() {
    let data = sample();
    let day = Date::from_ymd(2025, 12, 25);
    assert_eq!(drain(day.holidays(&data, Any.into())), ask(&data, Any.into(), day.into()));
    assert!(day.is_holiday(&data, country(US).into()));
    assert!(!day.is_holiday(&data, country(JP).into()));
    let range = (Included(Date::from_ymd(2025, 7, 1)), Included(Date::from_ymd(2025, 7, 31)));
    assert_eq!(
        drain(range.holidays(&data, Any.into())),
        filtered(&[DE, FR, HR, JP, US], |d| d.year() == 2025 && d.month() == 7)
    );
    assert!(range.is_holiday(&data, country(FR).into()));
    assert!(!range.is_holiday(&data, country(DE).into()));
    assert!(DateSelection::All.is_holiday(&data, country(HR).into()));
}

#[test]
fn one_country_on_one_date() {
    let data = sample();
    let mut holidays = get_holidays(&data, country(US).into(), on(2025, 7, 4));
    let holiday = holidays.next().expect("missing data");
    assert_eq!(holiday.name, "Independence Day");
    assert_eq!(holiday.code, country(US));
    assert_eq!(holidays.next(), None);
    assert!(is_holiday(&data, country(US).into(), on(2025, 7, 4)));
    assert!(!is_holiday(&data, country(US).into(), on(2025, 7, 5)));
}

#[test]
fn a_date_that_one_of_two_countries_observes() {
    let data = sample();
    let mut holidays = get_holidays(&data, many(&[JP, US]), on(2025, 9, 23));
    let holiday = holidays.next().unwrap();
    assert_eq!(holiday.name, "Autumnal Equinox");
    assert_eq!(holiday.code, country(JP));
    assert_eq!(holidays.next(), None);
    assert!(is_holiday(&data, many(&[US, JP]), on(2025, 9, 23)));
    assert!(!is_holiday(&data, country(US).into(), on(2025, 9, 23)));
}

#[test]
fn an_exact_date_yields_countries_in_ascending_order() {
    let data = sample();
    let found = ask(&data, many(&[US, DE, JP, FR]), on(2025, 1, 1));
    let codes: Vec<usize> = found.iter().map(|h| h.code.index()).collect();
    assert_eq!(codes, vec![DE as usize, FR as usize, JP as usize, US as usize]);
    assert_eq!(ask(&data, Any.into(), on(2025, 1, 2)), vec![]);
    assert_eq!(ask(&data, Any.into(), on(1999, 1, 1)), vec![]);
    assert_eq!(ask(&data, Any.into(), on(2030, 1, 1)), vec![]);
}

#[test]
fn probing_one_date_is_scanning_the_range_of_that_day() {
    let data = sample();
    let all_days: Vec<Date> = records().iter().map(|h| h.date).collect();
    for countries in [vec![US], vec![DE, FR], vec![JP, US, HR], vec![], vec![XX]] {
        for &day in &all_days {
            let probed = ask(&data, many(&countries), day.into());
            let scanned = ask(
                &data,
                many(&countries),
                (Included(day), Excluded(Date(day.0 + 1))).into(),
            );
            assert_eq!(probed, scanned);
            assert_eq!(probed, filtered(&countries, |d| d == day));
        }
    }
}

#[test]
fn ranges_of_dates_yield_the_records_of_the_range_in_table_order() {
    let data = sample();
    let from = Date::from_ymd(2025, 12, 20);
    let to = Date::from_ymd(2026, 1, 1);
    assert_eq!(
        ask(&data, many(&[FR, DE]), (Included(from), Included(to)).into()),
        filtered(&[FR, DE], |d| from <= d && d <= to)
    );
    assert_eq!(
        ask(&data, many(&[FR, DE]), (Included(from), Excluded(to)).into()),
        filtered(&[FR, DE], |d| from <= d && d < to)
    );
    assert_eq!(
        ask(&data, many(&[FR, DE]), (Excluded(Date::from_ymd(2025, 12, 25)), Unbounded).into()),
        filtered(&[FR, DE], |d| d > Date::from_ymd(2025, 12, 25))
    );
    assert_eq!(
        ask(&data, Any.into(), (Unbounded, Excluded(Date::from_ymd(2025, 1, 1))).into()),
        filtered(&[US], |d| d.year() == 2023)
    );
    assert_eq!(
        ask(&data, Any.into(), (Included(to), Excluded(from)).into()),
        vec![]
    );
}

#[test]
fn ranges_that_reach_past_the_years_of_the_table() {
    let data = sample();
    let early = Date::from_ymd(1990, 1, 1);
    let late = Date::from_ymd(2050, 1, 1);
    assert_eq!(ask(&data, Any.into(), (Included(early), Excluded(late)).into()), records());
    assert_eq!(ask(&data, Any.into(), (Included(early), Unbounded).into()), records());
    assert_eq!(ask(&data, Any.into(), (Unbounded, Excluded(late)).into()), records());
    assert_eq!(ask(&data, Any.into(), (Included(late), Unbounded).into()), vec![]);
    assert_eq!(ask(&data, Any.into(), (Unbounded, Excluded(early)).into()), vec![]);
    assert_eq!(
        ask(&data, Any.into(), (Included(Date(isize::MIN)), Included(Date(isize::MAX))).into()),
        records()
    );
    assert_eq!(
        ask(&data, country(US).into(), (Included(Date::from_ymd(2024, 6, 1)), Unbounded).into()),
        filtered(&[US], |d| d.year() >= 2025)
    );
}

#[test]
fn a_year_without_records_is_an_empty_slice() {
    let data = sample();
    let year = |y: isize| (Included(Date::from_year(y)), Excluded(Date::from_year(y + 1)));
    assert_eq!(ask(&data, Any.into(), year(2024).into()), vec![]);
    assert_eq!(ask(&data, Any.into(), year(2023).into()), filtered(&[US], |d| d.year() == 2023));
    assert_eq!(
        ask(&data, Any.into(), year(2025).into()),
        filtered(&[DE, FR, HR, JP, US], |d| d.year() == 2025)
    );
    assert_eq!(
        ask(&data, Any.into(), (Included(Date::from_ymd(2023, 12, 26)), Unbounded).into()),
        filtered(&[DE, FR, HR, JP, US], |d| d.year() >= 2025)
    );
}

#[test]
fn no_date_yields_every_holiday_of_the_countries_in_date_order() {
    let data = sample();
    for countries in [vec![US], vec![DE, FR], vec![JP, US, HR], vec![DE, FR, HR, JP, US]] {
        let found = ask(&data, many(&countries), Any.into());
        assert_eq!(found, filtered(&countries, |_| true));
        for pair in found.windows(2) {
            assert!(pair[0].date <= pair[1].date);
        }
    }
    assert_eq!(ask(&data, Any.into(), Any.into()), records());
    assert_eq!(ask(&data, many(&[]), Any.into()), vec![]);
    assert_eq!(ask(&data, country(XX).into(), Any.into()), vec![]);
    assert_eq!(ask(&data, country(XX).into(), DateSelection::from(Option::<Date>::None)), vec![]);
}

#[test]
fn one_country_alone_yields_its_position_list() {
    let data = sample();
    for code in [DE, FR, HR, JP, US, XX] {
        let positions = data.country_positions(country(code)).clone();
        let listed: Vec<Holiday> = positions.iter().map(|&p| data.get(p).unwrap()).collect();
        assert_eq!(ask(&data, country(code).into(), Any.into()), listed);
        assert!(positions.windows(2).all(|pair| pair[0] < pair[1]));
    }
    assert_eq!(data.country_positions(country(US)), &vec![0, 4, 5, 10, 16]);
}

#[test]
fn the_merge_of_a_set_is_the_pass_of_a_query_without_a_date() {
    let data = sample();
    let mut set = CountrySet::new();
    set.extend(&[country(US), country(DE)]);
    let mut pass = set.holidays(&data);
    let mut found = Vec::new();
    while let Some(next) = pass.next() {
        found.push(next);
    }
    assert!(pass.next().is_none());
    assert_eq!(found, filtered(&[US, DE], |_| true));
    let query = Query::country(country(US)).and(Query::country(country(DE)));
    assert_eq!(drain(query.into_iter(&data)), found);
}

#[test]
fn an_empty_constraint_yields_nothing() {
    let data = sample();
    let day = Date::from_ymd(2025, 1, 1);
    let query = Query::all().and(Query::date(day)).and(Query::date(Date(day.0 + 1)));
    assert!(query.date_filter.unwrap().is_empty());
    assert_eq!(drain(query.into_iter(&data)), vec![]);
    let query = Query::all()
        .and(Query::date_range(Included(day), Unbounded))
        .and(Query::date_range(Unbounded, Excluded(day)));
    assert_eq!(drain(query.into_iter(&data)), vec![]);
    let query = Query::all()
        .and(Query::year(2025))
        .and(Query::date_range(Included(Date::from_ymd(2025, 12, 1)), Unbounded));
    assert_eq!(
        drain(query.into_iter(&data)),
        filtered(&[DE, FR, US], |d| d.year() == 2025 && d.month() == 12)
    );
}

#[test]
fn the_span_of_a_constraint() {
    let data = sample();
    let day = |y, m, d| Date::from_ymd(y, m, d);
    assert_eq!(DateQuery::Exact(day(2025, 1, 1)).as_data_range(&data), 1..5);
    assert_eq!(DateQuery::Exact(day(2025, 1, 2)).as_data_range(&data), 5..5);
    assert_eq!(DateQuery::Exact(Date(isize::MAX)).as_data_range(&data), 17..17);
    assert_eq!(DateQuery::FromDate(day(2025, 12, 25)).as_data_range(&data), 8..17);
    assert_eq!(DateQuery::ToDate(day(2025, 12, 25)).as_data_range(&data), 0..8);
    assert_eq!(DateQuery::DateRange(day(2025, 7, 4), day(2025, 9, 23)).as_data_range(&data), 5..7);
    assert_eq!(DateQuery::DateRange(day(1990, 1, 1), day(2090, 1, 1)).as_data_range(&data), 0..17);
    assert_eq!(DateQuery::FromDate(day(2024, 3, 1)).as_data_range(&data), 1..17);
}

#[test]
fn lookups_in_the_index_tables() {
    let data = sample();
    assert_eq!(data.len(), 17);
    assert_eq!(data.get(5).map(|h| h.name), Some("Independence Day"));
    assert_eq!(data.get(17), None);
    assert_eq!(data.year_to_index(2022), None);
    assert_eq!(data.year_to_index(2023), Some(0));
    assert_eq!(data.year_to_index(2024), Some(1));
    assert_eq!(data.year_to_index(2025), Some(1));
    assert_eq!(data.year_to_index(2026), Some(12));
    assert_eq!(data.year_to_index(2027), None);
    assert_eq!(data.date_to_index(Date::from_ymd(2022, 12, 31)), None);
    assert_eq!(data.date_to_index(Date::from_ymd(2023, 1, 1)), Some(0));
    assert_eq!(data.date_to_index(Date::from_ymd(2023, 12, 25)), Some(0));
    assert_eq!(data.date_to_index(Date::from_ymd(2023, 12, 26)), Some(1));
    assert_eq!(data.date_to_index(Date::from_ymd(2024, 6, 1)), Some(1));
    assert_eq!(data.date_to_index(Date::from_ymd(2025, 1, 1)), Some(1));
    assert_eq!(data.date_to_index(Date::from_ymd(2025, 1, 2)), Some(5));
    assert_eq!(data.date_to_index(Date::from_ymd(2025, 12, 25)), Some(8));
    assert_eq!(data.date_to_index(Date::from_ymd(2026, 1, 1)), Some(12));
    assert_eq!(data.date_to_index(Date::from_ymd(2026, 1, 2)), None);
    assert_eq!(data.date_to_index(Date::from_ymd(2027, 1, 1)), None);
    assert_eq!(data.lower_bound_of(Date::from_ymd(2022, 12, 31)), 0);
    assert_eq!(data.lower_bound_of(Date::from_ymd(2026, 1, 2)), 17);
    assert_eq!(data.lower_bound_of(Date(isize::MIN)), 0);
    assert_eq!(data.lower_bound_of(Date(isize::MAX)), 17);
}

#[test]
fn the_exact_match_table_finds_each_record_and_nothing_else() {
    let data = sample();
    for (position, record) in records().into_iter().enumerate() {
        assert_eq!(data.country_date_to_holiday(record.code, record.date), Some(record));
        assert_eq!(data.get(position), Some(record));
        assert_eq!(data.country_date_to_holiday(record.code, Date(record.date.0 + 2)), None);
        assert_eq!(data.country_date_to_holiday(country(XX), record.date), None);
    }
    assert_eq!(
        data.country_date_to_holiday(country(JP), Date::from_ymd(2025, 9, 23)).map(|h| h.name),
        Some("Autumnal Equinox")
    );
    assert_eq!(data.country_date_to_holiday(country(US), Date::from_ymd(2025, 9, 23)), None);
    assert_eq!(data.country_date_to_holiday(country(0), Date(0)), None);
}

#[test]
fn a_table_needs_sorted_records() {
    assert_eq!(Dataset::build(vec![]).err(), Some(BuildError::Empty));
    let mut swapped = records();
    swapped.swap(5, 6);
    assert_eq!(Dataset::build(swapped).err(), Some(BuildError::Unsorted(6)));
    let mut countries_swapped = records();
    countries_swapped.swap(1, 2);
    assert_eq!(Dataset::build(countries_swapped).err(), Some(BuildError::Unsorted(2)));
    let mut twice = records();
    twice.insert(6, holiday(US, 2025, 7, 4, "Fourth of July"));
    assert_eq!(Dataset::build(twice).err(), Some(BuildError::Unsorted(6)));
    let one = Dataset::build(vec![holiday(JP, 2025, 9, 23, "Autumnal Equinox")]).unwrap();
    assert_eq!(one.len(), 1);
    assert_eq!(one.year_to_index(2025), Some(0));
    assert_eq!(one.year_to_index(2024), None);
    assert_eq!(one.year_to_index(2026), None);
}

#[test]
fn a_table_of_records_far_from_the_epoch() {
    let data = Dataset::build(vec![
        holiday(JP, -44, 3, 15, "Ides of March"),
        holiday(US, 1, 1, 1, "First Day"),
        holiday(DE, 3, 12, 31, "Last Day"),
    ])
    .unwrap();
    assert_eq!(data.year_to_index(-45), None);
    assert_eq!(data.year_to_index(-44), Some(0));
    assert_eq!(data.year_to_index(-43), Some(1));
    assert_eq!(data.year_to_index(0), Some(1));
    assert_eq!(data.year_to_index(1), Some(1));
    assert_eq!(data.year_to_index(2), Some(2));
    assert_eq!(data.year_to_index(3), Some(2));
    assert_eq!(data.year_to_index(4), None);
    assert_eq!(ask(&data, Any.into(), on(1, 1, 1)).len(), 1);
    assert_eq!(ask(&data, Any.into(), Any.into()).len(), 3);
}

#[test]
fn bounding_entries_of_countries() {
    let data = sample();
    let day = |y, m, d| Date::from_ymd(y, m, d);
    assert_eq!(
        get_bounding_entries(&data, country(US).into()),
        vec![(country(US), Some((day(2023, 12, 25), day(2026, 1, 1))))]
    );
    assert_eq!(get_bounding_entries(&data, country(XX).into()), vec![(country(XX), None)]);
    assert_eq!(
        get_bounding_entries(&data, country(HR).into()),
        vec![(country(HR), Some((day(2026, 1, 1), day(2026, 1, 1))))]
    );
    assert_eq!(
        get_bounding_entries(&data, many(&[JP, XX, DE, JP])),
        vec![
            (country(JP), Some((day(2025, 1, 1), day(2026, 1, 1)))),
            (country(XX), None),
            (country(DE), Some((day(2025, 1, 1), day(2026, 1, 1)))),
            (country(JP), Some((day(2025, 1, 1), day(2026, 1, 1)))),
        ]
    );
    assert_eq!(get_bounding_entries(&data, many(&[])), vec![]);
    let all = get_bounding_entries(&data, Any.into());
    assert_eq!(all.len(), COUNTRY_COUNT);
    for (ordinal, entry) in all.iter().enumerate() {
        assert_eq!(entry.0.index(), ordinal);
        assert_eq!(entry.1.is_some(), [DE, FR, HR, JP, US].contains(&(ordinal as u16)));
    }
}

#[test]
fn the_pass_over_bounds_yields_holidays() {
    let data = sample();
    let mut pass = many(&[HR, XX]).bounds(&data);
    let (first, bounds) = pass.next().unwrap();
    assert_eq!(first, country(HR));
    let (min, max) = bounds.unwrap();
    assert_eq!(min, max);
    assert_eq!(min.name, "Nova godina");
    assert_eq!(pass.next(), Some((country(XX), None)));
    assert_eq!(pass.next(), None);
    assert_eq!(pass.next(), None);
}

#[test]
fn the_date_of_a_holiday() {
    let h = holiday(US, 2025, 7, 4, "Independence Day");
    assert_eq!(h.date::<Date>(), Ok(Date::from_ymd(2025, 7, 4)));
    assert_eq!(h.date::<chrono::NaiveDate>(), Ok(chrono::NaiveDate::from_ymd_opt(2025, 7, 4).unwrap()));
    assert_eq!(
        h.date::<SystemTime>(),
        Ok(SystemTime::UNIX_EPOCH + std::time::Duration::from_secs(20273 * 86400))
    );
    assert_eq!(
        h.date::<time::OffsetDateTime>(),
        Ok(time::OffsetDateTime::UNIX_EPOCH + time::Duration::days(20273))
    );
    let far = Holiday { code: country(US), date: Date(isize::MAX), name: "Last Day" };
    assert_eq!(far.date::<time::OffsetDateTime>(), Err(DateConversionError));
    assert_eq!(far.date::<chrono::NaiveDate>(), Err(DateConversionError));
    assert_eq!(far.date::<SystemTime>(), Err(DateConversionError));
    assert_eq!(h.date::<Date>().map_err(|e| e.message()), Ok(h.date));
    let failed: Result<Date, DateConversionError> = Err(DateConversionError);
    assert!(failed.is_err());
}

#[test]
fn the_strategy_follows_the_constraint_on_the_date() {
    let data = sample();
    let day = Date::from_ymd(2025, 1, 1);
    let plan = |date: DateSelection| get_holidays(&data, Any.into(), date).plan();
    assert_eq!(plan(Any.into()), Strategy::NoDate);
    assert_eq!(plan(day.into()), Strategy::Exact);
    assert_eq!(plan((Included(day), Unbounded).into()), Strategy::DateRange);
    assert_eq!(plan((Unbounded, Excluded(day)).into()), Strategy::DateRange);
    assert_eq!(plan((Included(day), Included(day)).into()), Strategy::DateRange);
    assert_eq!(plan((Included(day), Excluded(day)).into()), Strategy::Empty);
    assert_eq!(plan((Unbounded, Unbounded).into()), Strategy::NoDate);
    let joined = Query::all().and(Query::date(day)).and(Query::year(2025));
    assert_eq!(joined.into_iter(&data).plan(), Strategy::Exact);
    let empty = Query::all().and(Query::date(day)).and(Query::year(2026));
    assert_eq!(empty.into_iter(&data).plan(), Strategy::Empty);
}
