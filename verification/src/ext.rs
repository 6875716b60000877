//! Queries that start from the date.

use crate::data::Dataset;
use crate::date::Date;
use crate::date_query::Limit;
use crate::iter::Iter;
use crate::query::{matching, planned};
use crate::selection::{CountrySelection, DateSelection};
use vstd::prelude::*;

verus! {

/// A value that stands for a selection of dates, and can be asked for the
/// holidays on them.
pub trait DateExt: Sized {
    /// The selection of dates that the value stands for.
    spec fn selection(&self) -> DateSelection;

    /// The selection of dates that the value stands for.
    fn to_selection(&self) -> (r: DateSelection)
        ensures
            r == self.selection(),
    ;

    /// The holidays of `countries` on the dates that the value stands for.
    fn holidays<'a>(&self, data: &'a Dataset, countries: CountrySelection) -> (it: Iter<'a>)
        ensures
            it.wf(),
            it.data() == data,
            it.strategy() == planned(self.selection().filter()),
            it.remaining() == matching(
                data.records(),
                countries.ordinals(),
                self.selection().filter(),
            ),
    {
        crate::get_holidays(data, countries, self.to_selection())
    }

    /// Whether `countries` observe a holiday on a date that the value
    /// stands for.
    fn is_holiday(&self, data: &Dataset, countries: CountrySelection) -> (r: bool)
        ensures
            r == (matching(data.records(), countries.ordinals(), self.selection().filter()).len()
                > 0),
    {
        crate::is_holiday(data, countries, self.to_selection())
    }
}

impl DateExt for Date {
    open spec fn selection(&self) -> DateSelection {
        DateSelection::One(*self)
    }

    fn to_selection(&self) -> (r: DateSelection) {
        DateSelection::One(*self)
    }
}

impl DateExt for (Limit<Date>, Limit<Date>) {
    open spec fn selection(&self) -> DateSelection {
        DateSelection::Range(self.0, self.1)
    }

    fn to_selection(&self) -> (r: DateSelection) {
        DateSelection::Range(self.0, self.1)
    }
}

impl DateExt for DateSelection {
    open spec fn selection(&self) -> DateSelection {
        *self
    }

    fn to_selection(&self) -> (r: DateSelection) {
        *self
    }
}

} // verus!
