//! The making of the index tables from a list of records.

use crate::calendar::{days_to_civil, lemma_year_fits};
use crate::country::COUNTRY_COUNT;
use crate::data::{
    exact_build, exact_entries, exact_key, lemma_year_start, lists_country, year_start, Dataset,
};
use crate::records::{
    lemma_lower_bound_unique, lower_bound, stands_before, strictly_sorted, Holiday,
};
use vstd::prelude::*;

verus! {

/// Why a list of records cannot be made into a table.
#[derive(Clone, Copy, Debug, PartialEq, Eq, Structural)]
pub enum BuildError {
    /// There is no record.
    Empty,
    /// The record at this position does not stand after the one before it.
    Unsorted(usize),
    /// There are more records than the exact-match table can hold.
    TooLarge,
}

/// The number of records that the exact-match table can hold.
pub const MAX_RECORDS: usize = 0xffff_ffff;

/// Whether each record up to position `n` stands after the one before it.
pub open spec fn ascending_to(records: Seq<Holiday>, n: int) -> bool {
    forall|q: int| 0 < q < n ==> stands_before(records[q - 1], #[trigger] records[q])
}

/// Records of which each stands after the one before it are in table
/// order.
pub proof fn lemma_ascending(records: Seq<Holiday>, i: int, j: int)
    requires
        ascending_to(records, records.len() as int),
        0 <= i < j < records.len(),
    ensures
        stands_before(records[i], records[j]),
    decreases j - i,
{
    assert(stands_before(records[j - 1], records[j]));
    if i < j - 1 {
        lemma_ascending(records, i, j - 1);
    }
}

/// Whether `positions` lists, in ascending order, exactly the positions
/// before `n` of the records of country `ordinal`.
spec fn lists_country_to(records: Seq<Holiday>, ordinal: int, positions: Seq<usize>, n: int) -> bool {
    &&& forall|s: int, t: int|
        0 <= s < t < positions.len() ==> (#[trigger] positions[s]) < (#[trigger] positions[t])
    &&& forall|t: int|
        0 <= t < positions.len() ==> (#[trigger] positions[t]) < n
            && records[positions[t] as int].code.ordinal() == ordinal
    &&& forall|p: int|
        0 <= p < n && (#[trigger] records[p]).code.ordinal() == ordinal ==> positions.contains(
            p as usize,
        )
}

/// Whether each record stands after the one before it; the position of
/// the first one that does not, where there is one.
fn first_unsorted(records: &Vec<Holiday>) -> (r: Option<usize>)
    ensures
        match r {
            None => ascending_to(records@, records@.len() as int),
            Some(p) => 0 < p < records@.len() && ascending_to(records@, p as int)
                && !stands_before(records@[p - 1], records@[p as int]),
        },
        forall|p: int|
            0 <= p < records@.len() ==> 0 <= (#[trigger] records@[p]).code.ordinal()
                < COUNTRY_COUNT,
{
    let n = records.len();
    let mut found: Option<usize> = None;
    let mut i: usize = 0;
    while i < n
        invariant
            i <= n == records@.len(),
            match found {
                None => ascending_to(records@, i as int),
                Some(p) => 0 < p < records@.len() && ascending_to(records@, p as int)
                    && !stands_before(records@[p - 1], records@[p as int]),
            },
            forall|p: int|
                0 <= p < i ==> 0 <= (#[trigger] records@[p]).code.ordinal() < COUNTRY_COUNT,
        decreases n - i,
    {
        let here = records[i];
        let code = here.code.index();
        if i > 0 && found.is_none() {
            let before = records[i - 1];
            let after = before.date.0 < here.date.0 || (before.date.0 == here.date.0
                && before.code.index() < code);
            if !after {
                found = Some(i);
            }
        }
        i += 1;
    }
    found
}

/// The year jump table of sorted records: for each year from `min_year` to
/// `max_year`, the position of the first record of that year or of a later
/// one.
fn build_year_jump(records: &Vec<Holiday>, min_year: isize, max_year: isize) -> (r: Vec<usize>)
    requires
        strictly_sorted(records@),
        isize::MIN / 2 < min_year <= max_year < isize::MAX / 2,
    ensures
        r@.len() == max_year - min_year + 1,
        forall|i: int|
            0 <= i < r@.len() ==> (#[trigger] r@[i]) == lower_bound(
                records@,
                year_start(min_year + i),
            ),
{
    let n = records.len();
    let mut table: Vec<usize> = Vec::new();
    let mut p: usize = 0;
    let mut y: isize = min_year;
    loop
        invariant_except_break
            table@.len() == y - min_year,
            forall|i: int| 0 <= i < p ==> (#[trigger] records@[i]).date.0 < year_start(y as int),
        invariant
            n == records@.len(),
            strictly_sorted(records@),
            isize::MIN / 2 < min_year <= y <= max_year < isize::MAX / 2,
            p <= n,
            forall|i: int|
                0 <= i < table@.len() ==> (#[trigger] table@[i]) == lower_bound(
                    records@,
                    year_start(min_year + i),
                ),
        ensures
            table@.len() == max_year - min_year + 1,
            forall|i: int|
                0 <= i < table@.len() ==> (#[trigger] table@[i]) == lower_bound(
                    records@,
                    year_start(min_year + i),
                ),
        decreases max_year - y,
    {
        while p < n && records[p].date.year() < y
            invariant
                n == records@.len(),
                p <= n,
                forall|i: int|
                    0 <= i < p ==> (#[trigger] records@[i]).date.0 < year_start(y as int),
            decreases n - p,
        {
            proof {
                lemma_year_start(records@[p as int].date.0 as int, y as int);
            }
            p += 1;
        }
        proof {
            if p < n {
                lemma_year_start(records@[p as int].date.0 as int, y as int);
                assert forall|i: int| p <= i < n implies (#[trigger] records@[i]).date.0
                    >= year_start(y as int) by {
                    if p < i {
                        assert(stands_before(records@[p as int], records@[i]));
                    }
                }
            }
            lemma_lower_bound_unique(records@, year_start(y as int), p as int);
        }
        table.push(p);
        if y == max_year {
            break ;
        }
        proof {
            lemma_year_start(0, y as int);
        }
        y += 1;
    }
    table
}

/// The country position table of records: for each country, the positions
/// of its records in ascending order.
fn build_country_positions(records: &Vec<Holiday>) -> (r: Vec<Vec<usize>>)
    requires
        forall|p: int|
            0 <= p < records@.len() ==> 0 <= (#[trigger] records@[p]).code.ordinal()
                < COUNTRY_COUNT,
    ensures
        r@.len() == COUNTRY_COUNT,
        forall|c: int|
            0 <= c < COUNTRY_COUNT ==> lists_country(records@, c, (#[trigger] r@[c])@),
{
    let n = records.len();
    let mut lists: Vec<Vec<usize>> = Vec::new();
    let mut c: usize = 0;
    while c < COUNTRY_COUNT
        invariant
            c <= COUNTRY_COUNT,
            lists@.len() == c,
            forall|k: int| 0 <= k < c ==> (#[trigger] lists@[k])@.len() == 0,
        decreases COUNTRY_COUNT - c,
    {
        lists.push(Vec::new());
        c += 1;
    }
    let mut i: usize = 0;
    while i < n
        invariant
            i <= n == records@.len(),
            lists@.len() == COUNTRY_COUNT,
            forall|p: int|
                0 <= p < records@.len() ==> 0 <= (#[trigger] records@[p]).code.ordinal()
                    < COUNTRY_COUNT,
            forall|k: int|
                0 <= k < COUNTRY_COUNT ==> lists_country_to(
                    records@,
                    k,
                    (#[trigger] lists@[k])@,
                    i as int,
                ),
        decreases n - i,
    {
        let code = records[i].code.index();
        let ghost before = lists@;
        lists[code].push(i);
        proof {
            assert forall|k: int| 0 <= k < COUNTRY_COUNT implies lists_country_to(
                records@,
                k,
                (#[trigger] lists@[k])@,
                i + 1,
            ) by {
                let old_list = before[k]@;
                let new_list = lists@[k]@;
                assert(lists_country_to(records@, k, old_list, i as int));
                if k == code {
                    assert(new_list =~= old_list.push(i));
                    assert forall|p: int|
                        0 <= p < i + 1 && (#[trigger] records@[p]).code.ordinal()
                            == k implies new_list.contains(p as usize) by {
                        if p < i {
                            assert(old_list.contains(p as usize));
                            let t = choose|t: int| 0 <= t < old_list.len() && old_list[t] == p as usize;
                            assert(new_list[t] == p as usize);
                        } else {
                            assert(new_list[old_list.len() as int] == p as usize);
                        }
                    }
                } else {
                    assert(new_list == old_list);
                }
            }
        }
        i += 1;
    }
    lists
}

/// The keys of the exact-match table, one for each record.
fn build_exact_keys(records: &Vec<Holiday>) -> (r: Vec<i128>)
    requires
        strictly_sorted(records@),
        forall|p: int|
            0 <= p < records@.len() ==> 0 <= (#[trigger] records@[p]).code.ordinal()
                < COUNTRY_COUNT,
    ensures
        r@.len() == records@.len(),
        forall|p: int|
            0 <= p < r@.len() ==> (#[trigger] r@[p]) == exact_key(
                records@[p].code.ordinal(),
                records@[p].date.0 as int,
            ),
        r@.no_duplicates(),
{
    let n = records.len();
    let mut keys: Vec<i128> = Vec::with_capacity(n);
    let mut i: usize = 0;
    while i < n
        invariant
            i <= n == records@.len(),
            keys@.len() == i,
            forall|p: int|
                0 <= p < i ==> (#[trigger] keys@[p]) == exact_key(
                    records@[p].code.ordinal(),
                    records@[p].date.0 as int,
                ),
        decreases n - i,
    {
        let here = records[i];
        keys.push(here.date.0 as i128 * 65536 + here.code.index() as i128);
        i += 1;
    }
    proof {
        assert forall|a: int, b: int| 0 <= a < keys@.len() && 0 <= b < keys@.len() && a
            != b implies keys@[a] != keys@[b] by {
            if a < b {
                assert(stands_before(records@[a], records@[b]));
            } else {
                assert(stands_before(records@[b], records@[a]));
            }
        }
    }
    keys
}

/// The records of a sorted table lie between the start of the year of the
/// first and the end of the year of the last.
proof fn lemma_year_span(records: Seq<Holiday>)
    requires
        strictly_sorted(records),
        records.len() > 0,
    ensures
        ({
            let min_year = days_to_civil(records[0].date.0 as int).0;
            let max_year = days_to_civil(records.last().date.0 as int).0;
            &&& isize::MIN / 2 < min_year <= max_year < isize::MAX / 2
            &&& forall|p: int|
                0 <= p < records.len() ==> year_start(min_year) <= (#[trigger] records[p]).date.0
                    < year_start(max_year + 1)
        }),
{
    let n = records.len() as int;
    let first = records[0].date;
    let last = records[n - 1].date;
    let min_year = days_to_civil(first.0 as int).0;
    let max_year = days_to_civil(last.0 as int).0;
    lemma_year_fits(first.0 as int);
    lemma_year_fits(last.0 as int);
    lemma_year_start(first.0 as int, min_year);
    lemma_year_start(last.0 as int, min_year);
    lemma_year_start(last.0 as int, max_year + 1);
    if 0 < n - 1 {
        assert(stands_before(records[0], records[n - 1]));
    }
    assert forall|p: int| 0 <= p < records.len() implies year_start(min_year) <= (
    #[trigger] records[p]).date.0 < year_start(max_year + 1) by {
        if 0 < p {
            assert(stands_before(records[0], records[p]));
        }
        if p < n - 1 {
            assert(stands_before(records[p], records[n - 1]));
        }
    }
}

/// A map that holds the keys of the records, each with its position, is
/// the exact-match table of the records.
proof fn lemma_exact_keys(records: Seq<Holiday>, keys: Seq<i128>, entries: Map<i128, usize>)
    requires
        keys.len() == records.len(),
        forall|p: int|
            0 <= p < keys.len() ==> (#[trigger] keys[p]) == exact_key(
                records[p].code.ordinal(),
                records[p].date.0 as int,
            ),
        forall|k: i128| entries.contains_key(k) <==> keys.contains(k),
        forall|p: int| 0 <= p < keys.len() ==> entries[#[trigger] keys[p]] == p,
    ensures
        forall|k: i128|
            entries.contains_key(k) <==> exists|p: int|
                0 <= p < records.len() && k == exact_key(
                    (#[trigger] records[p]).code.ordinal(),
                    records[p].date.0 as int,
                ),
        forall|p: int|
            0 <= p < records.len() ==> entries[exact_key(
                (#[trigger] records[p]).code.ordinal(),
                records[p].date.0 as int,
            ) as i128] == p,
{
    assert forall|k: i128|
        entries.contains_key(k) <==> exists|p: int|
            0 <= p < records.len() && k == exact_key(
                (#[trigger] records[p]).code.ordinal(),
                records[p].date.0 as int,
            ) by {
        if keys.contains(k) {
            let p = choose|p: int| 0 <= p < keys.len() && keys[p] == k;
            assert(k == exact_key(records[p].code.ordinal(), records[p].date.0 as int));
        }
        if exists|p: int|
            0 <= p < records.len() && k == exact_key(
                (#[trigger] records[p]).code.ordinal(),
                records[p].date.0 as int,
            ) {
            let p = choose|p: int|
                0 <= p < records.len() && k == exact_key(
                    (#[trigger] records[p]).code.ordinal(),
                    records[p].date.0 as int,
                );
            assert(keys[p] == k);
        }
    }
    assert forall|p: int| 0 <= p < records.len() implies entries[exact_key(
        (#[trigger] records[p]).code.ordinal(),
        records[p].date.0 as int,
    ) as i128] == p by {
        assert(keys[p] == exact_key(records[p].code.ordinal(), records[p].date.0 as int));
    }
}

impl Dataset {
    /// The table of the records `records` with its indices. The records
    /// are to be in table order: each on a later day than the one before
    /// it, or on the same day with a higher country ordinal. There is to be
    /// at least one, and no more than the exact-match table can hold.
    pub fn build(records: Vec<Holiday>) -> (r: Result<Dataset, BuildError>)
        ensures
            match r {
                Ok(data) => {
                    &&& records@.len() > 0
                    &&& strictly_sorted(records@)
                    &&& data.wf()
                    &&& data.records() == records@
                    &&& data.min_year() == days_to_civil(records@[0].date.0 as int).0
                    &&& data.max_year() == days_to_civil(records@.last().date.0 as int).0
                },
                Err(BuildError::Empty) => records@.len() == 0,
                Err(BuildError::TooLarge) => records@.len() > MAX_RECORDS,
                Err(BuildError::Unsorted(p)) => 0 < p < records@.len() <= MAX_RECORDS
                    && ascending_to(records@, p as int) && !stands_before(
                    records@[p - 1],
                    records@[p as int],
                ),
            },
            r is Ok ==> records@.len() <= MAX_RECORDS,
    {
        let n = records.len();
        if n == 0 {
            return Err(BuildError::Empty);
        }
        if n > MAX_RECORDS {
            return Err(BuildError::TooLarge);
        }
        if let Some(p) = first_unsorted(&records) {
            return Err(BuildError::Unsorted(p));
        }
        proof {
            assert forall|i: int, j: int| 0 <= i < j < records@.len() implies stands_before(
                #[trigger] records@[i],
                #[trigger] records@[j],
            ) by {
                lemma_ascending(records@, i, j);
            }
        }
        let first = records[0].date;
        let last = records[n - 1].date;
        let min_year = first.year();
        let max_year = last.year();
        proof {
            lemma_year_span(records@);
        }
        let year_jump = build_year_jump(&records, min_year, max_year);
        let country_positions = build_country_positions(&records);
        let keys = build_exact_keys(&records);
        let exact = exact_build(&keys);
        proof {
            lemma_exact_keys(records@, keys@, exact_entries(exact));
        }
        Ok(Dataset::assemble(records, min_year, max_year, year_jump, country_positions, exact))
    }
}

} // verus!
