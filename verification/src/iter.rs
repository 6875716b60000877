//! The passes over the holidays that a query asks for, one for each
//! strategy.

use crate::country::{CountrySet, CountrySetIter};
use crate::data::{observed_at, Dataset};
use crate::date::Date;
use crate::date_query::DateQuery;
use crate::merge::CountrySetHolidayIter;
use crate::query::{planned, Query, Strategy};
use crate::records::{
    lemma_lower_bound, lemma_lower_bound_monotonic, lemma_selected_same, lemma_selected_skip,
    lower_bound, selected, stands_before, strictly_sorted, Holiday,
};
use core::ops::Range;
use vstd::prelude::*;

verus! {

/// The strategy of a pass, with its state.
enum IterImpl<'a> {
    /// Nothing is left.
    Empty,
    /// One probe of the exact-match table for each country.
    Exact { inner: CountrySetIter, date: Date },
    /// A scan of the table between two positions.
    DateRange { range: Range<usize>, countries: CountrySet },
    /// A merge of the countries' position lists.
    NoDate(CountrySetHolidayIter<'a>),
}

/// A single pass over the holidays that a query asks for, in table order.
pub struct Iter<'a> {
    data: &'a Dataset,
    state: IterImpl<'a>,
}

impl<'a> Iter<'a> {
    /// The invariant of the pass.
    pub closed spec fn wf(self) -> bool {
        &&& self.data.wf()
        &&& match self.state {
            IterImpl::Empty => true,
            IterImpl::Exact { inner, date } => true,
            IterImpl::DateRange { range, countries } => range.end <= self.data.records().len(),
            IterImpl::NoDate(inner) => inner.wf() && inner.data() == self.data,
        }
    }

    /// The table that the pass reads.
    pub closed spec fn data(self) -> &'a Dataset {
        self.data
    }

    /// The strategy of the pass.
    pub closed spec fn strategy(self) -> Strategy {
        match self.state {
            IterImpl::Empty => Strategy::Empty,
            IterImpl::Exact { inner, date } => Strategy::Exact,
            IterImpl::DateRange { range, countries } => Strategy::DateRange,
            IterImpl::NoDate(inner) => Strategy::NoDate,
        }
    }

    /// The strategy of the pass.
    pub fn plan(&self) -> (r: Strategy)
        ensures
            r == self.strategy(),
    {
        match &self.state {
            IterImpl::Empty => Strategy::Empty,
            IterImpl::Exact { inner, date } => Strategy::Exact,
            IterImpl::DateRange { range, countries } => Strategy::DateRange,
            IterImpl::NoDate(inner) => Strategy::NoDate,
        }
    }

    /// The holidays that the pass has yet to yield.
    pub closed spec fn remaining(self) -> Seq<Holiday> {
        match self.state {
            IterImpl::Empty => Seq::empty(),
            IterImpl::Exact { inner, date } => selected(
                self.data.records(),
                inner.remaining(),
                lower_bound(self.data.records(), date.0 as int),
                lower_bound(self.data.records(), date.0 + 1),
            ),
            IterImpl::DateRange { range, countries } => selected(
                self.data.records(),
                countries@,
                range.start as int,
                range.end as int,
            ),
            IterImpl::NoDate(inner) => inner.remaining(),
        }
    }
}

/// One step of the probing strategy: the next country of `inner` that
/// observes a holiday on `date`, with that holiday.
fn next_exact(data: &Dataset, countries: CountrySetIter, date: Date) -> (r: (
    Option<Holiday>,
    CountrySetIter,
))
    ensures
        ({
            let records = data.records();
            let lo = lower_bound(records, date.0 as int);
            let hi = lower_bound(records, date.0 + 1);
            let before = selected(records, countries.remaining(), lo, hi);
            let after = selected(records, r.1.remaining(), lo, hi);
            &&& before.len() == 0 ==> r.0 is None && after == before
            &&& before.len() > 0 ==> r.0 == Some(before[0]) && after == before.skip(1)
        }),
{
    let mut inner = countries;
    proof {
        use_type_invariant(data);
        data.lemma_wf();
    }
    let ghost records = data.records();
    let ghost lo = lower_bound(records, date.0 as int);
    let ghost hi = lower_bound(records, date.0 + 1);
    let ghost all = selected(records, inner.remaining(), lo, hi);
    proof {
        lemma_lower_bound(records, date.0 as int);
        lemma_lower_bound(records, date.0 + 1);
        lemma_lower_bound_monotonic(records, date.0 as int, date.0 + 1);
    }
    loop
        invariant
            records == data.records(),
            strictly_sorted(records),
            lo == lower_bound(records, date.0 as int),
            hi == lower_bound(records, date.0 + 1),
            0 <= lo <= hi <= records.len(),
            forall|i: int| lo <= i < hi ==> (#[trigger] records[i]).date.0 == date.0,
            forall|i: int|
                0 <= i < records.len() && (#[trigger] records[i]).date.0 == date.0 ==> lo <= i
                    < hi,
            selected(records, inner.remaining(), lo, hi) == all,
            all == selected(records, countries.remaining(), lo, hi),
        decreases inner.steps_left(),
    {
        let ghost set = inner.remaining();
        let country = match inner.next() {
            Some(country) => country,
            None => {
                proof {
                    lemma_selected_skip(records, set, lo, hi, hi);
                }
                return (None, inner);
            },
        };
        let ghost c = country.ordinal();
        let ghost rest = inner.remaining();
        match data.country_date_to_holiday(country, date) {
            Some(h) => {
                proof {
                    let p = choose|p: int|
                        observed_at(records, c, date.0 as int, p) && h == records[p];
                    assert forall|i: int| lo <= i < p + 1 && i < hi implies !rest.contains(
                        (#[trigger] records[i]).code.ordinal(),
                    ) by {
                        if i < p {
                            assert(stands_before(records[i], records[p]));
                        }
                    }
                    assert forall|i: int| lo <= i < p && i < hi implies !set.contains(
                        (#[trigger] records[i]).code.ordinal(),
                    ) by {
                        assert(stands_before(records[i], records[p]));
                    }
                    assert forall|i: int| p + 1 <= i < hi implies set.contains(
                        (#[trigger] records[i]).code.ordinal(),
                    ) == rest.contains(records[i].code.ordinal()) by {
                        assert(stands_before(records[p], records[i]));
                    }
                    lemma_selected_skip(records, set, lo, p, hi);
                    lemma_selected_skip(records, rest, lo, p + 1, hi);
                    lemma_selected_same(records, set, rest, p + 1, hi);
                    assert(all =~= seq![h] + selected(records, rest, lo, hi));
                    assert(selected(records, rest, lo, hi) =~= all.skip(1));
                }
                return (Some(h), inner);
            },
            None => {
                proof {
                    assert forall|i: int| lo <= i < hi implies set.contains(
                        (#[trigger] records[i]).code.ordinal(),
                    ) == rest.contains(records[i].code.ordinal()) by {
                        assert(!observed_at(records, c, date.0 as int, i));
                    }
                    lemma_selected_same(records, set, rest, lo, hi);
                }
            },
        }
    }
}

/// One step of the scanning strategy: the next record from position
/// `start` up to `end` whose country is in `countries`, with the position
/// after it.
fn next_in_range(data: &Dataset, start: usize, end: usize, countries: &CountrySet) -> (r: (
    Option<Holiday>,
    usize,
))
    requires
        end <= data.records().len(),
    ensures
        ({
            let records = data.records();
            let before = selected(records, countries@, start as int, end as int);
            let after = selected(records, countries@, r.1 as int, end as int);
            &&& before.len() == 0 ==> r.0 is None && after == before
            &&& before.len() > 0 ==> r.0 == Some(before[0]) && after == before.skip(1)
        }),
{
    let ghost records = data.records();
    let ghost all = selected(records, countries@, start as int, end as int);
    let mut at = start;
    while at < end
        invariant
            records == data.records(),
            end <= records.len(),
            selected(records, countries@, at as int, end as int) == all,
            all == selected(records, countries@, start as int, end as int),
        decreases end - at,
    {
        let i = at;
        at = i + 1;
        let result = match data.get(i) {
            Some(result) => result,
            None => {
                return (None, at);
            },
        };
        if countries.contains(result.code) {
            proof {
                assert(all =~= seq![result] + selected(records, countries@, at as int, end as int));
                assert(selected(records, countries@, at as int, end as int) =~= all.skip(1));
            }
            return (Some(result), at);
        }
    }
    (None, at)
}

impl<'a> Iter<'a> {
    /// The next holiday that the query asks for, or `None` when the pass
    /// is over.
    pub fn next(&mut self) -> (r: Option<Holiday>)
        requires
            old(self).wf(),
        ensures
            final(self).wf(),
            final(self).data() == old(self).data(),
            final(self).strategy() == old(self).strategy(),
            old(self).remaining().len() == 0 ==> r is None && final(self).remaining() == old(self).remaining(),
            old(self).remaining().len() > 0 ==> r == Some(old(self).remaining()[0]) && final(self).remaining() == old(self).remaining().skip(1),
    {
        match &mut self.state {
            IterImpl::Empty => None,
            IterImpl::Exact { inner, date } => {
                let (r, rest) = next_exact(self.data, *inner, *date);
                *inner = rest;
                r
            },
            IterImpl::DateRange { range, countries } => {
                let (r, at) = next_in_range(self.data, range.start, range.end, countries);
                range.start = at;
                r
            },
            IterImpl::NoDate(inner) => inner.next(),
        }
    }
}

impl Query {
    /// A pass over the holidays that the query asks for. The pass probes
    /// the exact-match table where the query names one date, scans a slice
    /// of the table where it names a range, and merges the countries'
    /// position lists where it names no date.
    pub fn into_iter<'a>(self, data: &'a Dataset) -> (it: Iter<'a>)
        ensures
            it.wf(),
            it.data() == data,
            it.strategy() == planned(self.date_filter),
            it.remaining() == self.results(data),
    {
        proof {
            use_type_invariant(data);
            data.lemma_wf();
        }
        match self.date_filter {
            Some(filter) => {
                if filter.is_empty() {
                    proof {
                        let records = data.records();
                        if records.len() > 0 {
                            filter.lemma_span(records, 0);
                        }
                        lemma_lower_bound(records, filter->DateRange_0.0 as int);
                        lemma_lower_bound(records, filter->DateRange_1.0 as int);
                        lemma_lower_bound_monotonic(
                            records,
                            filter->DateRange_1.0 as int,
                            filter->DateRange_0.0 as int,
                        );
                    }
                    Iter { data, state: IterImpl::Empty }
                } else {
                    match filter {
                        DateQuery::Exact(date) => Iter {
                            data,
                            state: IterImpl::Exact { inner: self.countries.iter(), date },
                        },
                        _ => {
                            proof {
                                let records = data.records();
                                if records.len() > 0 {
                                    filter.lemma_span(records, 0);
                                }
                            }
                            Iter {
                                data,
                                state: IterImpl::DateRange {
                                    range: filter.as_data_range(data),
                                    countries: self.countries,
                                },
                            }
                        },
                    }
                }
            },
            None => Iter { data, state: IterImpl::NoDate(self.countries.holidays(data)) },
        }
    }
}

} // verus!
