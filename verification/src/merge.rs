//! The holidays of a set of countries in table order, merged from the
//! countries' position lists.

use crate::country::{Country, CountrySet, COUNTRY_COUNT};
use crate::data::{lists_country, Dataset};
use crate::records::{lemma_selected_skip, selected, Holiday};
use crate::heap::{Entry, MinHeap};
use vstd::prelude::*;

verus! {

/// A place in the position list of one country.
struct Cursor {
    country: Country,
    next: usize,
}

/// A single pass over the holidays of a set of countries, in table order.
///
/// The pass holds one cursor for each country of the set and a heap of the
/// positions that the cursors stand at.
pub struct CountrySetHolidayIter<'a> {
    data: &'a Dataset,
    heap: MinHeap,
    cursors: Vec<Cursor>,
}

/// The position list that cursor `k` walks.
spec fn list(data: &Dataset, cursors: Seq<Cursor>, k: int) -> Seq<usize> {
    data.positions(cursors[k].country.ordinal())
}

/// Whether `e` is the position that one of the cursors stands at, together
/// with the number of that cursor.
spec fn is_head(data: &Dataset, cursors: Seq<Cursor>, e: Entry) -> bool {
    &&& e.1 < cursors.len()
    &&& cursors[e.1 as int].next < list(data, cursors, e.1 as int).len()
    &&& e.0 == list(data, cursors, e.1 as int)[cursors[e.1 as int].next as int]
}

/// The positions that the cursors stand at.
spec fn heads(data: &Dataset, cursors: Seq<Cursor>) -> Set<Entry> {
    Set::new(|e: Entry| is_head(data, cursors, e))
}

/// The ordinals of the countries that the cursors stand for.
spec fn members(cursors: Seq<Cursor>) -> Set<int> {
    Set::new(|c: int| exists|k: int| 0 <= k < cursors.len() && #[trigger] cursors[k].country.ordinal() == c)
}

/// Whether the cursors stand for different countries, each inside its
/// list or at the end of it.
spec fn cursors_fit(data: &Dataset, cursors: Seq<Cursor>) -> bool {
    &&& forall|k: int|
        0 <= k < cursors.len() ==> 0 <= (#[trigger] cursors[k]).country.ordinal() < COUNTRY_COUNT
            && cursors[k].next <= list(data, cursors, k).len()
    &&& forall|j: int, k: int|
        0 <= j < k < cursors.len() ==> (#[trigger] cursors[j]).country.ordinal() != (
        #[trigger] cursors[k]).country.ordinal()
}

/// Whether every position that a cursor has passed lies before `floor`.
spec fn passed_below(data: &Dataset, cursors: Seq<Cursor>, floor: int) -> bool {
    forall|k: int, t: int|
        0 <= k < cursors.len() && 0 <= t < cursors[k].next ==> (#[trigger] list(
            data,
            cursors,
            k,
        )[t]) < floor
}

/// Whether every position that a cursor stands at lies at or after `floor`.
spec fn heads_from(data: &Dataset, cursors: Seq<Cursor>, floor: int) -> bool {
    forall|k: int|
        0 <= k < cursors.len() && (#[trigger] cursors[k]).next < list(data, cursors, k).len()
            ==> floor <= list(data, cursors, k)[cursors[k].next as int]
}

/// Between the positions that the cursors have passed and those that they
/// stand at lies no record of a country of the set.
proof fn lemma_gap(data: &Dataset, cursors: Seq<Cursor>, low: int, high: int)
    requires
        data.wf(),
        cursors_fit(data, cursors),
        passed_below(data, cursors, low),
        heads_from(data, cursors, high),
    ensures
        forall|p: int|
            low <= p < high && 0 <= p < data.records().len() ==> !members(cursors).contains(
                (#[trigger] data.records()[p]).code.ordinal(),
            ),
{
    data.lemma_wf();
    assert forall|p: int|
        low <= p < high && 0 <= p < data.records().len() implies !members(cursors).contains(
        (#[trigger] data.records()[p]).code.ordinal(),
    ) by {
        let c = data.records()[p].code.ordinal();
        if members(cursors).contains(c) {
            let k = choose|k: int| 0 <= k < cursors.len() && #[trigger] cursors[k].country.ordinal() == c;
            let l = list(data, cursors, k);
            assert(lists_country(data.records(), c, data.positions(c)));
            assert(l.contains(p as usize));
            let t = choose|t: int| 0 <= t < l.len() && l[t] == p as usize;
            if t < cursors[k].next {
                assert(list(data, cursors, k)[t] < low);
            } else {
                if cursors[k].next < t {
                    assert(l[cursors[k].next as int] < l[t]);
                }
            }
        }
    }
}

impl<'a> CountrySetHolidayIter<'a> {
    /// The position that the pass has reached: the lowest of the positions
    /// that the cursors stand at, or the end of the table.
    spec fn floor(self) -> int {
        match self.heap.first() {
            Some(e) => e.0 as int,
            None => self.data.records().len() as int,
        }
    }

    /// The invariant of the pass: the heap holds the positions that the
    /// cursors stand at, and what the cursors have passed has been yielded.
    pub closed spec fn wf(self) -> bool {
        &&& self.data.wf()
        &&& self.heap.wf()
        &&& cursors_fit(self.data, self.cursors@)
        &&& self.heap@ == heads(self.data, self.cursors@)
        &&& passed_below(self.data, self.cursors@, self.floor())
    }

    /// The table that the pass reads.
    pub closed spec fn data(self) -> &'a Dataset {
        self.data
    }

    /// The holidays that the pass has yet to yield.
    pub closed spec fn remaining(self) -> Seq<Holiday> {
        selected(
            self.data.records(),
            members(self.cursors@),
            self.floor(),
            self.data.records().len() as int,
        )
    }

    /// The next holiday in table order, or `None` when the pass is over.
    pub fn next(&mut self) -> (r: Option<Holiday>)
        requires
            old(self).wf(),
        ensures
            final(self).wf(),
            final(self).data() == old(self).data(),
            old(self).remaining().len() == 0 ==> r is None && final(self).remaining() == old(self).remaining(),
            old(self).remaining().len() > 0 ==> r == Some(old(self).remaining()[0]) && final(self).remaining() == old(self).remaining().skip(1),
    {
        proof {
            self.heap.lemma_first();
            self.data.lemma_wf();
        }
        let ghost records = self.data.records();
        let ghost before = self.cursors@;
        let (val, k) = match self.heap.pop() {
            Some(e) => e,
            None => {
                proof {
                    self.heap.lemma_first();
                }
                return None;
            },
        };
        let ghost popped = self.heap@;
        assert(is_head(self.data, before, (val, k)));
        let count = self.cursors.len();
        let country = self.cursors[k].country;
        let positions = self.data.country_positions(country);
        let size = positions.len();
        let next = self.cursors[k].next + 1;
        self.cursors[k] = Cursor { country, next };
        let ghost after = self.cursors@;
        proof {
            assert forall|j: int| 0 <= j < after.len() implies list(self.data, after, j) == list(
                self.data,
                before,
                j,
            ) by {}
            assert(cursors_fit(self.data, after)) by {
                assert forall|j: int| 0 <= j < after.len() implies 0 <= (
                #[trigger] after[j]).country.ordinal() < COUNTRY_COUNT && after[j].next <= list(
                    self.data,
                    after,
                    j,
                ).len() by {
                    assert(0 <= before[j].country.ordinal() < COUNTRY_COUNT);
                }
                assert forall|i: int, j: int| 0 <= i < j < after.len() implies (
                #[trigger] after[i]).country.ordinal() != (#[trigger] after[j]).country.ordinal() by {
                    assert(before[i].country.ordinal() != before[j].country.ordinal());
                }
            }
            assert(members(after) =~= members(before)) by {
                assert forall|c: int| members(after).contains(c) == members(before).contains(
                    c,
                ) by {
                    if members(after).contains(c) {
                        let j = choose|j: int|
                            0 <= j < after.len() && #[trigger] after[j].country.ordinal() == c;
                        assert(before[j].country.ordinal() == c);
                    }
                    if members(before).contains(c) {
                        let j = choose|j: int|
                            0 <= j < before.len() && #[trigger] before[j].country.ordinal() == c;
                        assert(after[j].country.ordinal() == c);
                    }
                }
            }
        }
        if next < size {
            let entry = (positions[next], k);
            proof {
                if popped.contains(entry) {
                    assert(is_head(self.data, before, entry));
                }
            }
            self.heap.push(entry);
        }
        proof {
            let list_k = list(self.data, before, k as int);
            assert(lists_country(records, country.ordinal(), list_k));
            assert(self.heap@ =~= heads(self.data, after)) by {
                assert forall|x: Entry| self.heap@.contains(x) == heads(self.data, after).contains(
                    x,
                ) by {
                    if x.1 == k {
                        if is_head(self.data, before, x) {
                            assert(x == (val, k));
                        }
                    } else {
                        assert(is_head(self.data, after, x) == is_head(self.data, before, x));
                    }
                }
            }
            self.heap.lemma_first();
            let floor = self.floor();
            assert(val < floor) by {
                if self.heap.first() is Some {
                    let x = self.heap.first().unwrap();
                    assert(is_head(self.data, after, x));
                    if x.1 == k {
                        assert(list_k[next - 1] < list_k[next as int]);
                    } else {
                        assert(is_head(self.data, before, x));
                        assert(old(self).heap@.contains(x));
                        let list_x = list(self.data, before, x.1 as int);
                        assert(lists_country(
                            records,
                            before[x.1 as int].country.ordinal(),
                            list_x,
                        ));
                        assert(records[x.0 as int].code.ordinal() != records[val as int].code.ordinal());
                    }
                }
            }
            assert(passed_below(self.data, after, val + 1)) by {
                assert forall|j: int, t: int|
                    0 <= j < after.len() && 0 <= t < after[j].next implies (#[trigger] list(
                    self.data,
                    after,
                    j,
                )[t]) < val + 1 by {
                    if j == k && t == next - 1 {
                    } else {
                        assert(list(self.data, before, j)[t] < val);
                    }
                }
            }
            assert(heads_from(self.data, after, floor)) by {
                assert forall|j: int|
                    0 <= j < after.len() && (#[trigger] after[j]).next < list(
                        self.data,
                        after,
                        j,
                    ).len() implies floor <= list(self.data, after, j)[after[j].next as int] by {
                    assert(j < count);
                    let x: Entry = (list(self.data, after, j)[after[j].next as int], j as usize);
                    assert(is_head(self.data, after, x));
                    assert(self.heap@.contains(x));
                }
            }
            lemma_gap(self.data, after, val + 1, floor);
            lemma_selected_skip(
                records,
                members(after),
                val + 1,
                floor,
                records.len() as int,
            );
            assert(members(before).contains(records[val as int].code.ordinal()));
            assert(old(self).remaining() =~= seq![records[val as int]] + self.remaining());
            assert(self.remaining() =~= old(self).remaining().skip(1));
        }
        self.data.get(val)
    }
}

impl CountrySet {
    /// A pass over the holidays of the countries of the set, in table
    /// order.
    pub fn holidays<'a>(&self, data: &'a Dataset) -> (it: CountrySetHolidayIter<'a>)
        ensures
            it.wf(),
            it.data() == data,
            it.remaining() == selected(
                data.records(),
                self@,
                0,
                data.records().len() as int,
            ),
    {
        proof {
            use_type_invariant(data);
            data.lemma_wf();
        }
        let mut countries = self.iter();
        let mut cursors: Vec<Cursor> = Vec::new();
        loop
            invariant
                forall|c: int| countries.remaining().contains(c) ==> self@.contains(c),
                forall|k: int|
                    0 <= k < cursors@.len() ==> (#[trigger] cursors@[k]).next == 0 && 0
                        <= cursors@[k].country.ordinal() < COUNTRY_COUNT && self@.contains(
                        cursors@[k].country.ordinal(),
                    ) && !countries.remaining().contains(cursors@[k].country.ordinal()),
                forall|j: int, k: int|
                    0 <= j < k < cursors@.len() ==> (#[trigger] cursors@[j]).country.ordinal() != (
                    #[trigger] cursors@[k]).country.ordinal(),
                forall|c: int|
                    self@.contains(c) && !countries.remaining().contains(c) ==> members(
                        cursors@,
                    ).contains(c),
            ensures
                countries.remaining() == Set::<int>::empty(),
            decreases countries.steps_left(),
        {
            let ghost before = cursors@;
            match countries.next() {
                Some(country) => {
                    let index = country.index();
                    cursors.push(Cursor { country, next: 0 });
                    proof {
                        assert forall|c: int|
                            self@.contains(c) && !countries.remaining().contains(
                                c,
                            ) implies members(cursors@).contains(c) by {
                            if c == country.ordinal() {
                                assert(cursors@[cursors@.len() - 1].country.ordinal() == c);
                            } else {
                                assert(members(before).contains(c));
                                let k = choose|k: int|
                                    0 <= k < before.len() && #[trigger] before[k].country.ordinal()
                                        == c;
                                assert(cursors@[k].country.ordinal() == c);
                            }
                        }
                    }
                },
                None => {
                    break ;
                },
            }
        }
        let count = cursors.len();
        let mut heap = MinHeap::with_capacity(count);
        let mut idx: usize = 0;
        while idx < count
            invariant
                idx <= count == cursors@.len(),
                data.wf(),
                heap.wf(),
                heap@ == Set::new(|e: Entry| e.1 < idx && is_head(data, cursors@, e)),
                forall|k: int| 0 <= k < cursors@.len() ==> (#[trigger] cursors@[k]).next == 0,
            decreases count - idx,
        {
            let positions = data.country_positions(cursors[idx].country);
            if positions.len() > 0 {
                let entry = (positions[0], idx);
                heap.push(entry);
            }
            idx += 1;
            proof {
                assert(heap@ =~= Set::new(|e: Entry| e.1 < idx && is_head(data, cursors@, e)));
            }
        }
        let it = CountrySetHolidayIter { data, heap, cursors };
        proof {
            assert(it.heap@ =~= heads(data, it.cursors@));
            assert(members(it.cursors@) =~= self@) by {
                assert forall|c: int| members(it.cursors@).contains(c) implies self@.contains(
                    c,
                ) by {
                    let k = choose|k: int|
                        0 <= k < it.cursors@.len() && #[trigger] it.cursors@[k].country.ordinal()
                            == c;
                }
            }
            it.heap.lemma_first();
            let floor = it.floor();
            assert(heads_from(data, it.cursors@, floor)) by {
                assert forall|j: int|
                    0 <= j < it.cursors@.len() && (#[trigger] it.cursors@[j]).next < list(
                        data,
                        it.cursors@,
                        j,
                    ).len() implies floor <= list(data, it.cursors@, j)[it.cursors@[j].next as int] by {
                    let x: Entry = (
                        list(data, it.cursors@, j)[it.cursors@[j].next as int],
                        j as usize,
                    );
                    assert(is_head(data, it.cursors@, x));
                    assert(it.heap@.contains(x));
                }
            }
            lemma_gap(data, it.cursors@, 0, floor);
            lemma_selected_skip(
                data.records(),
                members(it.cursors@),
                0,
                floor,
                data.records().len() as int,
            );
        }
        it
    }
}

} // verus!
