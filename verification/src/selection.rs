//! What a caller may name in place of a query: any country, one or
//! several; any date, one or a range.

use crate::country::{Country, COUNTRY_COUNT};
use crate::date::Date;
use crate::date_query::{DateQuery, Limit};
use crate::query::Query;
use vstd::prelude::*;

verus! {

/// The selection that leaves one side of a query open: any country, or any
/// date.
#[derive(Clone, Copy, Debug, PartialEq, Eq, Structural)]
pub struct Any;

/// The countries that a caller asks for.
#[derive(Clone, Debug)]
pub enum CountrySelection {
    /// Every country.
    All,
    /// One country.
    One(Country),
    /// The countries of a list.
    Many(Vec<Country>),
}

/// The dates that a caller asks for.
#[derive(Clone, Copy, Debug, PartialEq, Eq, Structural)]
pub enum DateSelection {
    /// Every date.
    All,
    /// One date.
    One(Date),
    /// The dates of a range.
    Range(Limit<Date>, Limit<Date>),
}

impl CountrySelection {
    /// The ordinals of the countries that are asked for.
    pub open spec fn ordinals(self) -> Set<int> {
        match self {
            CountrySelection::All => Set::new(|i: int| 0 <= i < COUNTRY_COUNT),
            CountrySelection::One(one) => Set::<int>::empty().insert(one.ordinal()),
            CountrySelection::Many(many) => Set::new(
                |i: int| exists|k: int| 0 <= k < many@.len() && #[trigger] many@[k].ordinal() == i,
            ),
        }
    }

    /// The selection of the countries of `countries`.
    pub fn many(countries: &[Country]) -> (r: CountrySelection)
        ensures
            r matches CountrySelection::Many(list) && list@ == countries@,
    {
        let mut list: Vec<Country> = Vec::with_capacity(countries.len());
        let mut i: usize = 0;
        while i < countries.len()
            invariant
                i <= countries@.len(),
                list@ == countries@.take(i as int),
            decreases countries@.len() - i,
        {
            list.push(countries[i]);
            i += 1;
            proof {
                assert(list@ =~= countries@.take(i as int));
            }
        }
        proof {
            assert(countries@.take(countries@.len() as int) =~= countries@);
        }
        CountrySelection::Many(list)
    }

    /// The query for the holidays of the countries that are asked for, on
    /// every date.
    pub fn into_query(self) -> (r: Query)
        ensures
            r.countries@ == self.ordinals(),
            r.date_filter is None,
    {
        let r = match self {
            CountrySelection::All => Query::all(),
            CountrySelection::One(one) => Query::country(one),
            CountrySelection::Many(many) => Query::countries(many.as_slice()),
        };
        proof {
            assert(r.countries@ =~= self.ordinals());
        }
        r
    }
}

impl DateSelection {
    /// The constraint on the date that the selection stands for; `None`
    /// where every date is asked for.
    pub open spec fn filter(self) -> Option<DateQuery> {
        match self {
            DateSelection::All => None,
            DateSelection::One(one) => Some(DateQuery::Exact(one)),
            DateSelection::Range(start, end) => DateQuery::spec_date_range(start, end),
        }
    }

    /// The query for the dates that are asked for, of no country yet.
    pub fn into_query(self) -> (r: Query)
        ensures
            r.countries@ == Set::<int>::empty(),
            r.date_filter == self.filter(),
    {
        match self {
            DateSelection::All => Query::none(),
            DateSelection::One(one) => Query::date(one),
            DateSelection::Range(start, end) => Query::date_range(start, end),
        }
    }
}

impl From<Any> for CountrySelection {
    fn from(value: Any) -> (r: CountrySelection) {
        CountrySelection::All
    }
}

impl vstd::std_specs::convert::FromSpecImpl<Any> for CountrySelection {
    open spec fn obeys_from_spec() -> bool {
        true
    }

    open spec fn from_spec(value: Any) -> CountrySelection {
        CountrySelection::All
    }
}

impl From<Country> for CountrySelection {
    fn from(value: Country) -> (r: CountrySelection) {
        CountrySelection::One(value)
    }
}

impl vstd::std_specs::convert::FromSpecImpl<Country> for CountrySelection {
    open spec fn obeys_from_spec() -> bool {
        true
    }

    open spec fn from_spec(value: Country) -> CountrySelection {
        CountrySelection::One(value)
    }
}

impl From<Vec<Country>> for CountrySelection {
    fn from(value: Vec<Country>) -> (r: CountrySelection) {
        CountrySelection::Many(value)
    }
}

impl vstd::std_specs::convert::FromSpecImpl<Vec<Country>> for CountrySelection {
    open spec fn obeys_from_spec() -> bool {
        true
    }

    open spec fn from_spec(value: Vec<Country>) -> CountrySelection {
        CountrySelection::Many(value)
    }
}

impl From<Option<Country>> for CountrySelection {
    fn from(value: Option<Country>) -> (r: CountrySelection) {
        match value {
            Some(it) => CountrySelection::One(it),
            None => CountrySelection::All,
        }
    }
}

impl vstd::std_specs::convert::FromSpecImpl<Option<Country>> for CountrySelection {
    open spec fn obeys_from_spec() -> bool {
        true
    }

    open spec fn from_spec(value: Option<Country>) -> CountrySelection {
        match value {
            Some(it) => CountrySelection::One(it),
            None => CountrySelection::All,
        }
    }
}

impl From<Any> for DateSelection {
    fn from(value: Any) -> (r: DateSelection) {
        DateSelection::All
    }
}

impl vstd::std_specs::convert::FromSpecImpl<Any> for DateSelection {
    open spec fn obeys_from_spec() -> bool {
        true
    }

    open spec fn from_spec(value: Any) -> DateSelection {
        DateSelection::All
    }
}

impl From<Option<Date>> for DateSelection {
    fn from(value: Option<Date>) -> (r: DateSelection) {
        match value {
            Some(it) => DateSelection::One(it),
            None => DateSelection::All,
        }
    }
}

impl vstd::std_specs::convert::FromSpecImpl<Option<Date>> for DateSelection {
    open spec fn obeys_from_spec() -> bool {
        true
    }

    open spec fn from_spec(value: Option<Date>) -> DateSelection {
        match value {
            Some(it) => DateSelection::One(it),
            None => DateSelection::All,
        }
    }
}

impl From<Date> for DateSelection {
    fn from(value: Date) -> (r: DateSelection) {
        DateSelection::One(value)
    }
}

impl vstd::std_specs::convert::FromSpecImpl<Date> for DateSelection {
    open spec fn obeys_from_spec() -> bool {
        true
    }

    open spec fn from_spec(value: Date) -> DateSelection {
        DateSelection::One(value)
    }
}

impl From<(Limit<Date>, Limit<Date>)> for DateSelection {
    fn from(value: (Limit<Date>, Limit<Date>)) -> (r: DateSelection) {
        DateSelection::Range(value.0, value.1)
    }
}

impl vstd::std_specs::convert::FromSpecImpl<(Limit<Date>, Limit<Date>)> for DateSelection {
    open spec fn obeys_from_spec() -> bool {
        true
    }

    open spec fn from_spec(value: (Limit<Date>, Limit<Date>)) -> DateSelection {
        DateSelection::Range(value.0, value.1)
    }
}

} // verus!
