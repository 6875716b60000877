//! The first and the last holiday of each country of a selection.

use crate::country::{Country, COUNTRY_COUNT};
use crate::data::{lists_country, Dataset};
use crate::records::{stands_before, Holiday};
use crate::selection::CountrySelection;
use vstd::prelude::*;

verus! {

/// The first and the last holiday of the country with ordinal `ordinal` in
/// the table of `data`; `None` where the table holds no holiday of the
/// country.
pub open spec fn bounding(data: &Dataset, ordinal: int) -> Option<(Holiday, Holiday)> {
    let positions = data.positions(ordinal);
    if positions.len() == 0 {
        None
    } else {
        Some((data.records()[positions.first() as int], data.records()[positions.last() as int]))
    }
}

/// A country without a holiday in the table has no bounds. The bounds of
/// a country with holidays are holidays of that country, the first before
/// every other one and the last after every other one; they are the same
/// holiday exactly where the country has one holiday only.
pub proof fn lemma_bounding(data: &Dataset, ordinal: int)
    requires
        data.wf(),
        0 <= ordinal < COUNTRY_COUNT,
    ensures
        bounding(data, ordinal) is None <==> forall|p: int|
            0 <= p < data.records().len() ==> (#[trigger] data.records()[p]).code.ordinal()
                != ordinal,
        bounding(data, ordinal) matches Some((first, last)) ==> {
            &&& first.code.ordinal() == ordinal
            &&& last.code.ordinal() == ordinal
            &&& forall|p: int|
                0 <= p < data.records().len() && (#[trigger] data.records()[p]).code.ordinal()
                    == ordinal ==> {
                    &&& data.records()[p] == first || stands_before(first, data.records()[p])
                    &&& data.records()[p] == last || stands_before(data.records()[p], last)
                }
            &&& first == last <==> data.positions(ordinal).len() == 1
        },
{
    data.lemma_wf();
    let records = data.records();
    let positions = data.positions(ordinal);
    assert(lists_country(records, ordinal, positions));
    if positions.len() == 0 {
        assert forall|p: int| 0 <= p < records.len() implies (#[trigger] records[p]).code.ordinal()
            != ordinal by {
            if records[p].code.ordinal() == ordinal {
                assert(positions.contains(p as usize));
            }
        }
    } else {
        let a = positions.first() as int;
        let b = positions.last() as int;
        assert(positions[0] == a);
        assert(positions[positions.len() - 1] == b);
        assert(records[a].code.ordinal() == ordinal);
        assert forall|p: int|
            0 <= p < records.len() && (#[trigger] records[p]).code.ordinal() == ordinal implies (
            records[p] == records[a] || stands_before(records[a], records[p])) && (records[p]
            == records[b] || stands_before(records[p], records[b])) by {
            assert(positions.contains(p as usize));
            let t = choose|t: int| 0 <= t < positions.len() && positions[t] == p as usize;
            if 0 < t {
                assert(positions[0] < positions[t]);
                assert(stands_before(records[a], records[p]));
            }
            if t < positions.len() - 1 {
                assert(positions[t] < positions[positions.len() - 1]);
                assert(stands_before(records[p], records[b]));
            }
        }
        if positions.len() > 1 {
            assert(positions[0] < positions[positions.len() - 1]);
            assert(stands_before(records[a], records[b]));
        }
    }
}

/// The state of a pass over the countries of a selection.
enum BoundsResultImpl {
    /// Every country from this ordinal on.
    All(u16),
    /// One country, where it has not been yielded yet.
    One(Option<Country>),
    /// The countries of a list from a position on.
    Many(Vec<Country>, usize),
}

/// A single pass over the countries of a selection, which yields each
/// country with its first and its last holiday.
pub struct BoundsResult<'a> {
    data: &'a Dataset,
    state: BoundsResultImpl,
}

impl CountrySelection {
    /// The ordinals of the countries that are asked for, in the order in
    /// which their bounds are yielded: every country in ascending order, or
    /// the one country, or the countries of the list in its order.
    pub open spec fn listed(self) -> Seq<int> {
        match self {
            CountrySelection::All => Seq::new(COUNTRY_COUNT as nat, |i: int| i),
            CountrySelection::One(one) => seq![one.ordinal()],
            CountrySelection::Many(many) => Seq::new(many@.len(), |k: int| many@[k].ordinal()),
        }
    }

    /// A pass over the countries that are asked for, with their bounds.
    pub fn bounds<'a>(self, data: &'a Dataset) -> (r: BoundsResult<'a>)
        ensures
            r.wf(),
            r.data() == data,
            r.remaining() == self.listed(),
    {
        let state = match self {
            CountrySelection::All => BoundsResultImpl::All(0),
            CountrySelection::One(country) => BoundsResultImpl::One(Some(country)),
            CountrySelection::Many(countries) => BoundsResultImpl::Many(countries, 0),
        };
        let r = BoundsResult { data, state };
        proof {
            use_type_invariant(data);
            assert(r.remaining() =~= self.listed());
        }
        r
    }
}

impl<'a> BoundsResult<'a> {
    /// The invariant of the pass.
    pub closed spec fn wf(self) -> bool {
        &&& self.data.wf()
        &&& match self.state {
            BoundsResultImpl::All(next) => next <= COUNTRY_COUNT,
            BoundsResultImpl::One(_) => true,
            BoundsResultImpl::Many(countries, at) => at <= countries@.len(),
        }
    }

    /// The table that the pass reads.
    pub closed spec fn data(self) -> &'a Dataset {
        self.data
    }

    /// The ordinals of the countries that the pass has yet to yield.
    pub closed spec fn remaining(self) -> Seq<int> {
        match self.state {
            BoundsResultImpl::All(next) => Seq::new(
                (COUNTRY_COUNT - next) as nat,
                |i: int| next + i,
            ),
            BoundsResultImpl::One(Some(country)) => seq![country.ordinal()],
            BoundsResultImpl::One(None) => Seq::empty(),
            BoundsResultImpl::Many(countries, at) => Seq::new(
                (countries@.len() - at) as nat,
                |k: int| countries@[at + k].ordinal(),
            ),
        }
    }

    /// The next country of the selection.
    fn next_country(&mut self) -> (r: Option<Country>)
        requires
            old(self).wf(),
        ensures
            final(self).wf(),
            final(self).data() == old(self).data(),
            old(self).remaining().len() == 0 ==> r is None && final(self).remaining() == old(self).remaining(),
            old(self).remaining().len() > 0 ==> r is Some && r.unwrap().ordinal() == old(self).remaining()[0]
                && final(self).remaining() == old(self).remaining().skip(1),
    {
        match &mut self.state {
            BoundsResultImpl::All(next) => {
                let country = Country::new(*next);
                if country.is_some() {
                    *next = *next + 1;
                }
                proof {
                    assert(final(self).remaining() =~= if old(self).remaining().len() > 0 {
                        old(self).remaining().skip(1)
                    } else {
                        old(self).remaining()
                    });
                }
                country
            },
            BoundsResultImpl::One(country) => {
                let value = *country;
                *country = None;
                proof {
                    assert(final(self).remaining() =~= if old(self).remaining().len() > 0 {
                        old(self).remaining().skip(1)
                    } else {
                        old(self).remaining()
                    });
                }
                value
            },
            BoundsResultImpl::Many(countries, at) => {
                if *at < countries.len() {
                    let country = countries[*at];
                    *at = *at + 1;
                    proof {
                        assert(final(self).remaining() =~= old(self).remaining().skip(1));
                    }
                    Some(country)
                } else {
                    None
                }
            },
        }
    }

    /// The next country of the selection with its first and its last
    /// holiday, or `None` when the pass is over.
    pub fn next(&mut self) -> (r: Option<(Country, Option<(Holiday, Holiday)>)>)
        requires
            old(self).wf(),
        ensures
            final(self).wf(),
            final(self).data() == old(self).data(),
            old(self).remaining().len() == 0 ==> r is None && final(self).remaining() == old(self).remaining(),
            old(self).remaining().len() > 0 ==> r is Some && r.unwrap().0.ordinal() == old(self).remaining()[0]
                && r.unwrap().1 == bounding(old(self).data(), old(self).remaining()[0])
                && final(self).remaining() == old(self).remaining().skip(1),
    {
        let next = match self.next_country() {
            Some(next) => next,
            None => {
                return None;
            },
        };
        let data = self.data;
        proof {
            data.lemma_wf();
        }
        let indices = data.country_positions(next);
        let count = indices.len();
        let ghost ordinal = next.ordinal();
        let _index = next.index();
        proof {
            assert(lists_country(data.records(), ordinal, data.positions(ordinal)));
        }
        let bounds = if count > 0 {
            let min = indices[0];
            let max = indices[count - 1];
            match (data.get(min), data.get(max)) {
                (Some(first), Some(last)) => Some((first, last)),
                _ => None,
            }
        } else {
            None
        };
        Some((next, bounds))
    }
}

} // verus!
