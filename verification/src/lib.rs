//! A holiday query engine over an immutable, chronologically sorted record
//! table.
//!
//! The engine answers "which holidays occur in these countries during these
//! dates". Its parts are the calendar arithmetic of [`Date`], the bitset
//! [`CountrySet`], the index tables of a [`Dataset`], the predicate algebra
//! of [`Query`] and the iteration strategies of [`Iter`].

use vstd::prelude::*;

pub mod adapters;
pub mod bounds;
pub mod builder;
pub mod calendar;
pub mod codes;
pub mod country;
pub mod data;
pub mod date;
pub mod date_query;
pub mod ext;
pub mod foreign;
pub mod heap;
pub mod iter;
pub mod merge;
pub mod query;
pub mod records;
pub mod selection;

pub use bounds::BoundsResult;
pub use builder::BuildError;
pub use codes::{CountryParseError, CountryTable};
pub use country::{Country, CountrySet, CountrySetIter};
pub use data::Dataset;
pub use date::{Date, DateConversionError};
pub use date_query::{DateQuery, Limit};
pub use ext::DateExt;
pub use iter::Iter;
pub use merge::CountrySetHolidayIter;
pub use query::{Query, Strategy};
pub use records::Holiday;
pub use selection::{Any, CountrySelection, DateSelection};

verus! {

/// The holidays of `countries` on the dates of `date`, as a pass over the
/// table of `data` in table order.
pub fn get_holidays<'a>(data: &'a Dataset, countries: CountrySelection, date: DateSelection) -> (it:
    Iter<'a>)
    ensures
        it.wf(),
        it.data() == data,
        it.strategy() == query::planned(date.filter()),
        it.remaining() == query::matching(data.records(), countries.ordinals(), date.filter()),
{
    let country_query = countries.into_query();
    let date_query = date.into_query();
    let joined = country_query.and(date_query);
    proof {
        assert(joined.countries@ =~= countries.ordinals());
    }
    joined.into_iter(data)
}

/// Whether `countries` observe a holiday on a date of `date`.
pub fn is_holiday(data: &Dataset, countries: CountrySelection, date: DateSelection) -> (r: bool)
    ensures
        r == (query::matching(data.records(), countries.ordinals(), date.filter()).len() > 0),
{
    let mut it = get_holidays(data, countries, date);
    it.next().is_some()
}

/// The dates of the first and of the last holiday of each country of
/// `countries`, in the order of the selection; `None` for a country
/// without a holiday in the table.
pub fn get_bounding_entries(data: &Dataset, countries: CountrySelection) -> (r: Vec<
    (Country, Option<(Date, Date)>),
>)
    ensures
        r@.len() == countries.listed().len(),
        forall|i: int|
            0 <= i < r@.len() ==> (#[trigger] r@[i]).0.ordinal() == countries.listed()[i]
                && r@[i].1 == match bounds::bounding(data, countries.listed()[i]) {
                Some((first, last)) => Some((first.date, last.date)),
                None => None,
            },
{
    let ghost listed = countries.listed();
    let mut pass = countries.bounds(data);
    let mut entries: Vec<(Country, Option<(Date, Date)>)> = Vec::new();
    loop
        invariant
            pass.wf(),
            pass.data() == data,
            entries@.len() + pass.remaining().len() == listed.len(),
            pass.remaining() == listed.skip(entries@.len() as int),
            forall|i: int|
                0 <= i < entries@.len() ==> (#[trigger] entries@[i]).0.ordinal() == listed[i]
                    && entries@[i].1 == match bounds::bounding(data, listed[i]) {
                    Some((first, last)) => Some((first.date, last.date)),
                    None => None,
                },
        ensures
            entries@.len() == listed.len(),
            forall|i: int|
                0 <= i < entries@.len() ==> (#[trigger] entries@[i]).0.ordinal() == listed[i]
                    && entries@[i].1 == match bounds::bounding(data, listed[i]) {
                    Some((first, last)) => Some((first.date, last.date)),
                    None => None,
                },
        decreases pass.remaining().len(),
    {
        let ghost before = pass.remaining();
        match pass.next() {
            Some((country, bounds)) => {
                let dates = match bounds {
                    Some((min, max)) => Some((min.date, max.date)),
                    None => None,
                };
                entries.push((country, dates));
                proof {
                    assert(before[0] == listed[entries@.len() - 1]);
                    assert(pass.remaining() =~= listed.skip(entries@.len() as int));
                }
            },
            None => {
                break ;
            },
        }
    }
    entries
}

} // verus!
