//! The holiday records, their order in the table, and what it means to
//! select records from a slice of the table.

use crate::country::Country;
use crate::date::{Date, DateConversionError};
use vstd::prelude::*;
use vstd::std_specs::convert::TryFromSpec;

verus! {

/// A holiday: a day that a country observes under a name.
#[derive(Clone, Copy, Debug, PartialEq, Eq, Hash)]
pub struct Holiday {
    /// The country that observes the holiday.
    pub code: Country,
    /// The day of the holiday.
    pub date: Date,
    /// The name of the holiday.
    pub name: &'static str,
}

impl Holiday {
    /// The day of the holiday, in the date format `D`.
    pub fn date<D: TryFrom<Date>>(&self) -> (r: Result<D, DateConversionError>)
        ensures
            D::obeys_try_from_spec() ==> r == match D::try_from_spec(self.date) {
                Ok(date) => Ok::<D, DateConversionError>(date),
                Err(_) => Err::<D, DateConversionError>(DateConversionError),
            },
    {
        match D::try_from(self.date) {
            Ok(date) => Ok(date),
            Err(_) => Err(DateConversionError),
        }
    }
}

/// Whether `a` stands before `b` in the record table: on an earlier day, or
/// on the same day with a lower country ordinal.
pub open spec fn stands_before(a: Holiday, b: Holiday) -> bool {
    a.date.0 < b.date.0 || (a.date.0 == b.date.0 && a.code.ordinal() < b.code.ordinal())
}

/// Whether `records` is in table order with no country observing two
/// holidays on one day.
pub open spec fn strictly_sorted(records: Seq<Holiday>) -> bool {
    forall|i: int, j: int|
        0 <= i < j < records.len() ==> stands_before(#[trigger] records[i], #[trigger] records[j])
}

/// The number of leading records of `records` that lie before day `day`:
/// in a sorted table, the position of the first record on or after `day`.
pub open spec fn lower_bound(records: Seq<Holiday>, day: int) -> int
    decreases records.len(),
{
    if records.len() == 0 {
        0
    } else if records.last().date.0 < day {
        records.len() as int
    } else {
        lower_bound(records.drop_last(), day)
    }
}

/// The lower bound parts a sorted table into the records before `day` and
/// those on or after it.
pub proof fn lemma_lower_bound(records: Seq<Holiday>, day: int)
    requires
        strictly_sorted(records),
    ensures
        0 <= lower_bound(records, day) <= records.len(),
        forall|i: int| 0 <= i < lower_bound(records, day) ==> (#[trigger] records[i]).date.0 < day,
        forall|i: int|
            lower_bound(records, day) <= i < records.len() ==> (#[trigger] records[i]).date.0
                >= day,
    decreases records.len(),
{
    if records.len() > 0 {
        let front = records.drop_last();
        assert(strictly_sorted(front)) by {
            assert forall|i: int, j: int| 0 <= i < j < front.len() implies stands_before(
                #[trigger] front[i],
                #[trigger] front[j],
            ) by {
                assert(front[i] == records[i] && front[j] == records[j]);
            }
        }
        lemma_lower_bound(front, day);
        if records.last().date.0 < day {
            assert forall|i: int| 0 <= i < records.len() implies (#[trigger] records[i]).date.0
                < day by {
                if i < records.len() - 1 {
                    assert(stands_before(records[i], records[records.len() - 1]));
                }
            }
        } else {
            assert forall|i: int|
                lower_bound(records, day) <= i < records.len() implies (
            #[trigger] records[i]).date.0 >= day by {
                if i < records.len() - 1 {
                    assert(front[i] == records[i]);
                }
            }
            assert forall|i: int| 0 <= i < lower_bound(records, day) implies (
            #[trigger] records[i]).date.0 < day by {
                assert(front[i] == records[i]);
            }
        }
    }
}

/// A position that parts a sorted table at `day` is the lower bound of
/// `day`.
pub proof fn lemma_lower_bound_unique(records: Seq<Holiday>, day: int, p: int)
    requires
        strictly_sorted(records),
        0 <= p <= records.len(),
        forall|i: int| 0 <= i < p ==> (#[trigger] records[i]).date.0 < day,
        forall|i: int| p <= i < records.len() ==> (#[trigger] records[i]).date.0 >= day,
    ensures
        p == lower_bound(records, day),
{
    lemma_lower_bound(records, day);
    let q = lower_bound(records, day);
    if p < q {
        assert(records[p].date.0 < day);
    } else if q < p {
        assert(records[q].date.0 >= day);
    }
}

/// The lower bound does not fall as the day advances.
pub proof fn lemma_lower_bound_monotonic(records: Seq<Holiday>, a: int, b: int)
    requires
        strictly_sorted(records),
        a <= b,
    ensures
        lower_bound(records, a) <= lower_bound(records, b),
{
    lemma_lower_bound(records, a);
    lemma_lower_bound(records, b);
    let p = lower_bound(records, a);
    let q = lower_bound(records, b);
    if q < p {
        assert(records[q].date.0 >= b);
        assert(records[q].date.0 < a);
    }
}

/// The records at the positions from `lo` up to `hi` whose country is in
/// `countries`, in table order.
pub open spec fn selected(records: Seq<Holiday>, countries: Set<int>, lo: int, hi: int) -> Seq<
    Holiday,
>
    decreases hi - lo,
{
    if lo >= hi {
        Seq::empty()
    } else if countries.contains(records[lo].code.ordinal()) {
        seq![records[lo]] + selected(records, countries, lo + 1, hi)
    } else {
        selected(records, countries, lo + 1, hi)
    }
}

/// Positions in front that hold no country of the set can be left out.
pub proof fn lemma_selected_skip(
    records: Seq<Holiday>,
    countries: Set<int>,
    lo: int,
    mid: int,
    hi: int,
)
    requires
        lo <= mid,
        forall|p: int|
            lo <= p < mid && p < hi ==> !countries.contains((#[trigger] records[p]).code.ordinal()),
    ensures
        selected(records, countries, lo, hi) == selected(records, countries, mid, hi),
    decreases mid - lo,
{
    if lo < mid {
        if lo < hi {
            assert(!countries.contains(records[lo].code.ordinal()));
        }
        lemma_selected_skip(records, countries, lo + 1, mid, hi);
    }
}

/// Two sets that hold the same countries of the records between `lo` and
/// `hi` select the same records there.
pub proof fn lemma_selected_same(
    records: Seq<Holiday>,
    a: Set<int>,
    b: Set<int>,
    lo: int,
    hi: int,
)
    requires
        forall|p: int|
            lo <= p < hi ==> a.contains((#[trigger] records[p]).code.ordinal()) == b.contains(
                records[p].code.ordinal(),
            ),
    ensures
        selected(records, a, lo, hi) == selected(records, b, lo, hi),
    decreases hi - lo,
{
    if lo < hi {
        assert(a.contains(records[lo].code.ordinal()) == b.contains(records[lo].code.ordinal()));
        lemma_selected_same(records, a, b, lo + 1, hi);
    }
}

/// A record is selected exactly when it stands between `lo` and `hi` and
/// its country is in the set; and the selected records stand in the order
/// of the table.
pub proof fn lemma_selected(records: Seq<Holiday>, countries: Set<int>, lo: int, hi: int)
    requires
        0 <= lo,
        hi <= records.len(),
    ensures
        forall|h: Holiday|
            selected(records, countries, lo, hi).contains(h) <==> exists|p: int|
                lo <= p < hi && countries.contains((#[trigger] records[p]).code.ordinal())
                    && records[p] == h,
        strictly_sorted(records) ==> strictly_sorted(selected(records, countries, lo, hi)),
        forall|i: int|
            0 <= i < selected(records, countries, lo, hi).len() ==> exists|p: int|
                lo <= p < hi && #[trigger] records[p] == (#[trigger] selected(
                    records,
                    countries,
                    lo,
                    hi,
                )[i]),
    decreases hi - lo,
{
    let all = selected(records, countries, lo, hi);
    if lo < hi {
        let rest = selected(records, countries, lo + 1, hi);
        lemma_selected(records, countries, lo + 1, hi);
        let here = countries.contains(records[lo].code.ordinal());
        assert forall|h: Holiday| all.contains(h) <==> exists|p: int|
            lo <= p < hi && countries.contains((#[trigger] records[p]).code.ordinal())
                && records[p] == h by {
            if all.contains(h) {
                let i = choose|i: int| 0 <= i < all.len() && all[i] == h;
                if here && i == 0 {
                    assert(records[lo] == h);
                } else {
                    let j = if here {
                        i - 1
                    } else {
                        i
                    };
                    assert(rest[j] == h);
                    assert(rest.contains(h));
                }
            }
            if exists|p: int|
                lo <= p < hi && countries.contains((#[trigger] records[p]).code.ordinal())
                    && records[p] == h {
                let p = choose|p: int|
                    lo <= p < hi && countries.contains((#[trigger] records[p]).code.ordinal())
                        && records[p] == h;
                if p == lo {
                    assert(all[0] == h);
                } else {
                    assert(rest.contains(h));
                    let j = choose|j: int| 0 <= j < rest.len() && rest[j] == h;
                    let i = if here {
                        j + 1
                    } else {
                        j
                    };
                    assert(all[i] == h);
                }
            }
        }
        assert forall|i: int| 0 <= i < all.len() implies exists|p: int|
            lo <= p < hi && #[trigger] records[p] == (#[trigger] all[i]) by {
            if here && i == 0 {
                assert(records[lo] == all[i]);
            } else {
                let j = if here {
                    i - 1
                } else {
                    i
                };
                let p = choose|p: int| lo + 1 <= p < hi && #[trigger] records[p] == rest[j];
                assert(lo <= p < hi && records[p] == all[i]);
            }
        }
        if strictly_sorted(records) && here {
            assert forall|i: int, j: int| 0 <= i < j < all.len() implies stands_before(
                #[trigger] all[i],
                #[trigger] all[j],
            ) by {
                if i == 0 {
                    let p = choose|p: int| lo + 1 <= p < hi && #[trigger] records[p] == rest[j - 1];
                    assert(stands_before(records[lo], records[p]));
                } else {
                    assert(stands_before(rest[i - 1], rest[j - 1]));
                }
            }
        }
    }
}

/// A strictly ascending list of exactly the positions between `lo` and `hi`
/// whose country is in the set names the selected records, one by one.
pub proof fn lemma_selected_listed(
    records: Seq<Holiday>,
    countries: Set<int>,
    lo: int,
    hi: int,
    positions: Seq<usize>,
)
    requires
        0 <= lo,
        hi <= usize::MAX,
        forall|s: int, t: int|
            0 <= s < t < positions.len() ==> (#[trigger] positions[s]) < (#[trigger] positions[t]),
        forall|t: int|
            0 <= t < positions.len() ==> lo <= (#[trigger] positions[t]) < hi && countries.contains(
                records[positions[t] as int].code.ordinal(),
            ),
        forall|p: int|
            lo <= p < hi && countries.contains((#[trigger] records[p]).code.ordinal())
                ==> positions.contains(p as usize),
    ensures
        selected(records, countries, lo, hi) == Seq::new(
            positions.len(),
            |t: int| records[positions[t] as int],
        ),
    decreases hi - lo,
{
    let listed = Seq::new(positions.len(), |t: int| records[positions[t] as int]);
    if lo >= hi {
        if positions.len() > 0 {
            assert(lo <= positions[0] < hi);
        }
        assert(listed =~= Seq::<Holiday>::empty());
    } else if countries.contains(records[lo].code.ordinal()) {
        assert(positions.contains(lo as usize));
        let t = choose|t: int| 0 <= t < positions.len() && positions[t] == lo as usize;
        if t > 0 {
            assert(positions[0] < positions[t]);
        }
        assert(positions[0] == lo);
        let rest = positions.skip(1);
        assert forall|p: int|
            lo + 1 <= p < hi && countries.contains(
                (#[trigger] records[p]).code.ordinal(),
            ) implies rest.contains(p as usize) by {
            assert(positions.contains(p as usize));
            let u = choose|u: int| 0 <= u < positions.len() && positions[u] == p as usize;
            assert(rest[u - 1] == p as usize);
        }
        assert forall|u: int| 0 <= u < rest.len() implies lo + 1 <= (#[trigger] rest[u]) < hi
            && countries.contains(records[rest[u] as int].code.ordinal()) by {
            assert(positions[0] < positions[u + 1]);
        }
        lemma_selected_listed(records, countries, lo + 1, hi, rest);
        assert(listed =~= seq![records[lo]] + Seq::new(
            rest.len(),
            |t: int| records[rest[t] as int],
        ));
    } else {
        assert forall|t: int| 0 <= t < positions.len() implies lo + 1 <= (
        #[trigger] positions[t]) < hi by {
            if positions[t] == lo {
                assert(countries.contains(records[positions[t] as int].code.ordinal()));
            }
        }
        lemma_selected_listed(records, countries, lo + 1, hi, positions);
    }
}

} // verus!
