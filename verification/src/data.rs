//! The record table with its indices, and the lookups in them.

use crate::calendar::{civil_to_days, days_to_civil, lemma_civil_to_days_ordered, lemma_year_of_day};
use crate::country::{Country, COUNTRY_COUNT};
use crate::date::Date;
use crate::records::{
    lemma_lower_bound, lemma_lower_bound_monotonic, lemma_lower_bound_unique, lower_bound,
    stands_before, strictly_sorted, Holiday,
};
use vstd::prelude::*;

verus! {

/// The day on which year `year` begins.
#[verifier::opaque]
pub open spec fn year_start(year: int) -> int {
    civil_to_days(year, 1, 1)
}

/// A day lies before the start of year `year` exactly when its year is
/// before `year`; and a year starts before the next one does.
pub proof fn lemma_year_start(day: int, year: int)
    ensures
        days_to_civil(day).0 < year <==> day < year_start(year),
        year_start(year) < year_start(year + 1),
{
    reveal(year_start);
    lemma_year_of_day(day, year);
    lemma_civil_to_days_ordered(year, 1, 1, year + 1, 1, 1);
}

/// The key under which the exact-match table holds the record of country
/// `ordinal` on day `day`.
pub open spec fn exact_key(ordinal: int, day: int) -> int {
    day * 65536 + ordinal
}

/// Whether `positions` lists, in ascending order, exactly the positions of
/// the records of country `ordinal`.
pub open spec fn lists_country(records: Seq<Holiday>, ordinal: int, positions: Seq<usize>) -> bool {
    &&& forall|s: int, t: int|
        0 <= s < t < positions.len() ==> (#[trigger] positions[s]) < (#[trigger] positions[t])
    &&& forall|t: int|
        0 <= t < positions.len() ==> (#[trigger] positions[t]) < records.len()
            && records[positions[t] as int].code.ordinal() == ordinal
    &&& forall|p: int|
        0 <= p < records.len() && (#[trigger] records[p]).code.ordinal() == ordinal
            ==> positions.contains(p as usize)
}

/// Whether the record at position `p` is the holiday of country `ordinal`
/// on day `day`.
pub open spec fn observed_at(records: Seq<Holiday>, ordinal: int, day: int, p: int) -> bool {
    0 <= p < records.len() && records[p].code.ordinal() == ordinal && records[p].date.0 == day
}

/// `phf::Map`: a perfect-hash map. Nothing is known of what a value
/// holds but through [`exact_entries`].
#[verifier::external_type_specification]
#[verifier::external_body]
#[verifier::reject_recursive_types(K)]
#[verifier::reject_recursive_types(V)]
pub struct ExPhfMap<K: 'static, V: 'static>(phf::Map<K, V>);

/// The entries of a perfect-hash map: what `phf::Map::get` finds under each
/// key.
pub uninterp spec fn exact_entries(map: phf::Map<i128, usize>) -> Map<i128, usize>;

/// `phf::Map::get`: the value held under `key`, or `None` where the map
/// holds no such key.
#[verifier::external_body]
fn exact_get(map: &phf::Map<i128, usize>, key: i128) -> (r: Option<usize>)
    ensures
        r == if exact_entries(*map).contains_key(key) {
            Some(exact_entries(*map)[key])
        } else {
            None::<usize>
        },
{
    map.get(&key).copied()
}

/// `phf_generator::generate_hash`, laid out as a `phf::Map`: a map that
/// holds each key of `keys` with its position in `keys` as the value, and
/// nothing else. The generator does not return while two keys are equal,
/// and it counts the keys in 32 bits, so the keys are required to differ
/// and to be no more than 32 bits count.
#[verifier::external_body]
pub(crate) fn exact_build(keys: &Vec<i128>) -> (map: phf::Map<i128, usize>)
    requires
        keys@.no_duplicates(),
        keys@.len() <= u32::MAX,
    ensures
        forall|k: i128| exact_entries(map).contains_key(k) <==> keys@.contains(k),
        forall|p: int|
            0 <= p < keys@.len() ==> exact_entries(map)[#[trigger] keys@[p]] == p,
{
    let state = phf_generator::generate_hash(keys);
    let entries: Vec<(i128, usize)> = state.map.iter().map(|&p| (keys[p], p)).collect();
    phf::Map { key: state.key, disps: state.disps.leak(), entries: entries.leak() }
}

/// Whether the indices say of the records what they are meant to say:
/// the records are in table order and lie in the years from `min_year` to
/// `max_year`; the year jump table holds, for each of these years, the
/// position of the first record of that year or of a later one; the
/// country position table lists the positions of the records of each
/// country; and the exact-match table holds the position of each record
/// under the key of its country and day.
pub open spec fn tables_fit(
    records: Seq<Holiday>,
    min_year: int,
    max_year: int,
    year_jump: Seq<usize>,
    country_positions: Seq<Vec<usize>>,
    entries: Map<i128, usize>,
) -> bool {
    &&& strictly_sorted(records)
    &&& forall|p: int|
        0 <= p < records.len() ==> 0 <= (#[trigger] records[p]).code.ordinal() < COUNTRY_COUNT
    &&& min_year <= max_year < isize::MAX
    &&& forall|p: int|
        0 <= p < records.len() ==> year_start(min_year) <= (#[trigger] records[p]).date.0
            < year_start(max_year + 1)
    &&& year_jump.len() == max_year - min_year + 1
    &&& forall|i: int|
        0 <= i < year_jump.len() ==> (#[trigger] year_jump[i]) == lower_bound(
            records,
            year_start(min_year + i),
        )
    &&& country_positions.len() == COUNTRY_COUNT
    &&& forall|c: int|
        0 <= c < COUNTRY_COUNT ==> lists_country(records, c, (#[trigger] country_positions[c])@)
    &&& forall|k: i128|
        entries.contains_key(k) <==> exists|p: int|
            0 <= p < records.len() && k == exact_key(
                (#[trigger] records[p]).code.ordinal(),
                records[p].date.0 as int,
            )
    &&& forall|p: int|
        0 <= p < records.len() ==> entries[exact_key(
            (#[trigger] records[p]).code.ordinal(),
            records[p].date.0 as int,
        ) as i128] == p
}

/// The record table with its indices: the year jump table, the country
/// position table and the exact-match table.
pub struct Dataset {
    records: Vec<Holiday>,
    min_year: isize,
    max_year: isize,
    year_jump: Vec<usize>,
    country_positions: Vec<Vec<usize>>,
    exact: phf::Map<i128, usize>,
}

impl Dataset {
    /// The invariant of the tables: the records are in table order, and
    /// each index says of them what it is meant to say.
    #[verifier::type_invariant]
    pub closed spec fn wf(self) -> bool {
        tables_fit(
            self.records@,
            self.min_year as int,
            self.max_year as int,
            self.year_jump@,
            self.country_positions@,
            exact_entries(self.exact),
        )
    }

    /// The table of records and indices that fit each other.
    pub(crate) fn assemble(
        records: Vec<Holiday>,
        min_year: isize,
        max_year: isize,
        year_jump: Vec<usize>,
        country_positions: Vec<Vec<usize>>,
        exact: phf::Map<i128, usize>,
    ) -> (r: Dataset)
        requires
            tables_fit(
                records@,
                min_year as int,
                max_year as int,
                year_jump@,
                country_positions@,
                exact_entries(exact),
            ),
        ensures
            r.wf(),
            r.records() == records@,
            r.min_year() == min_year,
            r.max_year() == max_year,
    {
        Dataset { records, min_year, max_year, year_jump, country_positions, exact }
    }

    /// The records, in table order.
    pub closed spec fn records(self) -> Seq<Holiday> {
        self.records@
    }

    /// The positions of the records of the country with ordinal `ordinal`,
    /// in ascending order.
    pub closed spec fn positions(self, ordinal: int) -> Seq<usize> {
        self.country_positions@[ordinal]@
    }

    /// The first year that the year jump table covers.
    pub closed spec fn min_year(self) -> int {
        self.min_year as int
    }

    /// The last year that the year jump table covers.
    pub closed spec fn max_year(self) -> int {
        self.max_year as int
    }

    /// The position that the year jump table holds for year `year`.
    pub open spec fn year_position(self, year: int) -> Option<usize> {
        if self.min_year() <= year <= self.max_year() {
            Some(lower_bound(self.records(), year_start(year)) as usize)
        } else {
            None
        }
    }

    /// The position of the first record on or after `date`, where the year
    /// of `date` is a year of the table and there is such a record.
    pub open spec fn date_position(self, date: Date) -> Option<usize> {
        let year = days_to_civil(date.0 as int).0;
        let position = lower_bound(self.records(), date.0 as int);
        if self.min_year() <= year <= self.max_year() && position < self.records().len() {
            Some(position as usize)
        } else {
            None
        }
    }

    /// What the tables say of the records, for use outside this module.
    pub proof fn lemma_wf(self)
        requires
            self.wf(),
        ensures
            strictly_sorted(self.records()),
            self.min_year() <= self.max_year(),
            forall|p: int|
                0 <= p < self.records().len() ==> 0 <= (
                #[trigger] self.records()[p]).code.ordinal() < COUNTRY_COUNT,
            forall|p: int|
                0 <= p < self.records().len() ==> year_start(self.min_year()) <= (
                #[trigger] self.records()[p]).date.0 < year_start(self.max_year() + 1),
            forall|c: int|
                0 <= c < COUNTRY_COUNT ==> lists_country(
                    self.records(),
                    c,
                    #[trigger] self.positions(c),
                ),
            self.records().len() <= usize::MAX,
    {
        assert(self.records.len() == self.records@.len());
    }

    /// The position of the first record of year `year` or of a later year,
    /// where `year` is a year of the table.
    pub fn year_to_index(&self, year: isize) -> (r: Option<usize>)
        ensures
            r == self.year_position(year as int),
    {
        proof {
            use_type_invariant(self);
        }
        if year < self.min_year {
            return None;
        }
        if year > self.max_year {
            return None;
        }
        let offset: usize = (year as i128 - self.min_year as i128) as usize;
        Some(self.year_jump[offset])
    }

    /// The position of the first record on or after `date`: a binary search
    /// between the positions that the year jump table holds for the year
    /// of `date` and for the year after it.
    pub fn date_to_index(&self, date: Date) -> (r: Option<usize>)
        ensures
            r == self.date_position(date),
    {
        proof {
            use_type_invariant(self);
        }
        let len = self.records.len();
        let y = date.year();
        let start = match self.year_to_index(y) {
            Some(start) => start,
            None => {
                return None;
            },
        };
        let end = match self.year_to_index(y + 1) {
            Some(end) => end,
            None => len,
        };
        proof {
            lemma_year_start(date.0 as int, y as int);
            lemma_year_start(date.0 as int, y + 1);
            lemma_lower_bound(self.records@, year_start(y as int));
            lemma_lower_bound(self.records@, year_start(y + 1));
            lemma_lower_bound_monotonic(self.records@, year_start(y as int), year_start(y + 1));
        }
        let mut lo = start;
        let mut hi = end;
        while lo < hi
            invariant
                strictly_sorted(self.records@),
                start <= lo <= hi <= end <= self.records@.len(),
                forall|i: int| 0 <= i < lo ==> (#[trigger] self.records@[i]).date.0 < date.0,
                forall|i: int|
                    hi <= i < self.records@.len() ==> (#[trigger] self.records@[i]).date.0
                        >= date.0,
            decreases hi - lo,
        {
            let mid = lo + (hi - lo) / 2;
            if self.records[mid].date.0 < date.0 {
                proof {
                    assert forall|i: int| 0 <= i < mid + 1 implies (
                    #[trigger] self.records@[i]).date.0 < date.0 by {
                        if i < mid {
                            assert(stands_before(self.records@[i], self.records@[mid as int]));
                        }
                    }
                }
                lo = mid + 1;
            } else {
                proof {
                    assert forall|i: int| mid <= i < self.records@.len() implies (
                    #[trigger] self.records@[i]).date.0 >= date.0 by {
                        if mid < i {
                            assert(stands_before(self.records@[mid as int], self.records@[i]));
                        }
                    }
                }
                hi = mid;
            }
        }
        proof {
            lemma_lower_bound_unique(self.records@, date.0 as int, lo as int);
        }
        if lo >= len {
            None
        } else {
            Some(lo)
        }
    }

    /// The position of the first record on or after `date`; the number of
    /// records where there is no such record.
    pub fn lower_bound_of(&self, date: Date) -> (p: usize)
        ensures
            p == lower_bound(self.records(), date.0 as int),
    {
        proof {
            use_type_invariant(self);
            lemma_lower_bound(self.records@, date.0 as int);
        }
        let len = self.records.len();
        match self.date_to_index(date) {
            Some(p) => p,
            None => {
                let year = date.year();
                proof {
                    lemma_year_start(date.0 as int, self.min_year as int);
                    lemma_year_start(date.0 as int, self.max_year + 1);
                }
                if year < self.min_year {
                    proof {
                        lemma_lower_bound_unique(self.records@, date.0 as int, 0);
                    }
                    0
                } else {
                    proof {
                        lemma_lower_bound_unique(self.records@, date.0 as int, len as int);
                    }
                    len
                }
            },
        }
    }

    /// The holiday that `country` observes on `date`, if it observes one.
    pub fn country_date_to_holiday(&self, country: Country, date: Date) -> (r: Option<Holiday>)
        ensures
            match r {
                Some(h) => exists|p: int|
                    observed_at(self.records(), country.ordinal(), date.0 as int, p) && h
                        == self.records()[p],
                None => forall|p: int|
                    !observed_at(self.records(), country.ordinal(), date.0 as int, p),
            },
    {
        proof {
            use_type_invariant(self);
        }
        let key: i128 = date.0 as i128 * 65536 + country.index() as i128;
        match exact_get(&self.exact, key) {
            Some(position) => {
                proof {
                    let p = choose|p: int|
                        0 <= p < self.records@.len() && key == exact_key(
                            (#[trigger] self.records@[p]).code.ordinal(),
                            self.records@[p].date.0 as int,
                        );
                    assert(position == p);
                    assert(observed_at(self.records(), country.ordinal(), date.0 as int, p));
                }
                Some(self.records[position])
            },
            None => {
                proof {
                    assert forall|p: int|
                        !observed_at(self.records(), country.ordinal(), date.0 as int, p) by {
                        if observed_at(self.records(), country.ordinal(), date.0 as int, p) {
                            assert(key == exact_key(
                                self.records@[p].code.ordinal(),
                                self.records@[p].date.0 as int,
                            ));
                        }
                    }
                }
                None
            },
        }
    }

    /// The positions of the records of `country`, in ascending order.
    pub fn country_positions(&self, country: Country) -> (r: &Vec<usize>)
        ensures
            r@ == self.positions(country.ordinal()),
    {
        proof {
            use_type_invariant(self);
        }
        &self.country_positions[country.index()]
    }

    /// The number of records.
    pub fn len(&self) -> (n: usize)
        ensures
            n == self.records().len(),
    {
        self.records.len()
    }

    /// The record at position `position`.
    pub fn get(&self, position: usize) -> (h: Option<Holiday>)
        ensures
            h == if position < self.records().len() {
                Some(self.records()[position as int])
            } else {
                None::<Holiday>
            },
    {
        if position < self.records.len() {
            Some(self.records[position])
        } else {
            None
        }
    }
}

} // verus!
