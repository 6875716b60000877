//! A binary min-heap of position entries.

use vstd::prelude::*;

verus! {

/// An entry of the heap: a position in the record table, and the number of
/// the cursor that the position was taken from.
pub type Entry = (usize, usize);

/// A binary min-heap of entries, ordered by their positions.
pub struct MinHeap {
    items: Vec<Entry>,
}

/// Whether every entry of `items` but the root stands at or after its
/// parent, where the entry at `hole` is not held against its parent.
spec fn ordered_but(items: Seq<Entry>, hole: int) -> bool {
    forall|i: int| 1 <= i < items.len() && i != hole ==> items[(i - 1) / 2].0 <= (#[trigger] items[i]).0
}

/// Whether the children of `hole` stand at or after the parent of `hole`.
spec fn bridged(items: Seq<Entry>, hole: int) -> bool {
    forall|i: int|
        1 <= i < items.len() && hole >= 1 && (i - 1) / 2 == hole ==> items[(hole - 1) / 2].0 <= (
        #[trigger] items[i]).0
}

/// The entries that `items` holds.
spec fn entries(items: Seq<Entry>) -> Set<Entry> {
    Set::new(|e: Entry| items.contains(e))
}

/// Exchanging two entries changes neither which entries there are nor
/// that each is there once.
proof fn lemma_swap(items: Seq<Entry>, i: int, j: int)
    requires
        0 <= i < items.len(),
        0 <= j < items.len(),
        items.no_duplicates(),
    ensures
        entries(items.update(i, items[j]).update(j, items[i])) == entries(items),
        items.update(i, items[j]).update(j, items[i]).no_duplicates(),
{
    let after = items.update(i, items[j]).update(j, items[i]);
    assert forall|e: Entry| after.contains(e) == items.contains(e) by {
        if after.contains(e) {
            let k = choose|k: int| 0 <= k < after.len() && after[k] == e;
            let m = if k == i {
                j
            } else if k == j {
                i
            } else {
                k
            };
            assert(items[m] == e);
        }
        if items.contains(e) {
            let k = choose|k: int| 0 <= k < items.len() && items[k] == e;
            let m = if k == i {
                j
            } else if k == j {
                i
            } else {
                k
            };
            assert(after[m] == e);
        }
    }
    assert(entries(after) =~= entries(items));
}

/// Adding a new entry at the end.
proof fn lemma_pushed(items: Seq<Entry>, entry: Entry)
    requires
        items.no_duplicates(),
        !items.contains(entry),
    ensures
        entries(items.push(entry)) == entries(items).insert(entry),
        items.push(entry).no_duplicates(),
{
    let after = items.push(entry);
    assert forall|e: Entry| after.contains(e) == (e == entry || items.contains(e)) by {
        if after.contains(e) {
            let k = choose|k: int| 0 <= k < after.len() && after[k] == e;
            if k < items.len() {
                assert(items[k] == e);
            }
        }
        if items.contains(e) {
            let k = choose|k: int| 0 <= k < items.len() && items[k] == e;
            assert(after[k] == e);
        }
        if e == entry {
            assert(after[items.len() as int] == e);
        }
    }
    assert(entries(after) =~= entries(items).insert(entry));
}

/// Putting the last entry in the place of the root takes the root out.
proof fn lemma_replace_root(items: Seq<Entry>)
    requires
        items.len() >= 1,
        items.no_duplicates(),
    ensures
        items.len() == 1 ==> entries(items.drop_last()) == entries(items).remove(items[0]),
        items.len() >= 2 ==> entries(items.drop_last().update(0, items.last())) == entries(
            items,
        ).remove(items[0]),
        items.drop_last().no_duplicates(),
        items.len() >= 2 ==> items.drop_last().update(0, items.last()).no_duplicates(),
{
    let front = items.drop_last();
    let n = items.len() as int;
    if n == 1 {
        assert forall|e: Entry| front.contains(e) == entries(items).remove(items[0]).contains(
            e,
        ) by {
            if items.contains(e) {
                let k = choose|k: int| 0 <= k < items.len() && items[k] == e;
                assert(k == 0);
            }
        }
        assert(entries(front) =~= entries(items).remove(items[0]));
    } else {
        let after = front.update(0, items.last());
        assert forall|e: Entry| after.contains(e) == (items.contains(e) && e != items[0]) by {
            if after.contains(e) {
                let k = choose|k: int| 0 <= k < after.len() && after[k] == e;
                let m = if k == 0 {
                    n - 1
                } else {
                    k
                };
                assert(items[m] == e);
            }
            if items.contains(e) && e != items[0] {
                let k = choose|k: int| 0 <= k < items.len() && items[k] == e;
                let m = if k == n - 1 {
                    0
                } else {
                    k
                };
                assert(after[m] == e);
            }
        }
        assert(entries(after) =~= entries(items).remove(items[0]));
    }
}

/// In a heap the root stands at or before every entry.
proof fn lemma_root_first(items: Seq<Entry>, i: int)
    requires
        ordered_but(items, 0),
        0 <= i < items.len(),
    ensures
        items[0].0 <= items[i].0,
    decreases i,
{
    if i > 0 {
        lemma_root_first(items, (i - 1) / 2);
    }
}

impl MinHeap {
    /// Whether every entry but the root stands at or after its parent, and
    /// no entry is held twice.
    pub closed spec fn wf(self) -> bool {
        ordered_but(self.items@, 0) && self.items@.no_duplicates()
    }

    /// The entries of the heap.
    pub closed spec fn view(self) -> Set<Entry> {
        entries(self.items@)
    }

    /// The entry at the root of the heap.
    pub closed spec fn first(self) -> Option<Entry> {
        if self.items@.len() > 0 {
            Some(self.items@[0])
        } else {
            None
        }
    }

    /// The root of a heap is one of its entries, and none stands before
    /// it; only the empty heap has no root.
    pub proof fn lemma_first(self)
        requires
            self.wf(),
        ensures
            self.first() is None <==> self@ == Set::<Entry>::empty(),
            self.first() matches Some(e) ==> self@.contains(e) && forall|x: Entry|
                self@.contains(x) ==> e.0 <= x.0,
    {
        if self.items@.len() > 0 {
            let e = self.items@[0];
            assert(self.items@.contains(e));
            assert(self@.contains(e));
            assert forall|x: Entry| self@.contains(x) implies e.0 <= x.0 by {
                let i = choose|i: int| 0 <= i < self.items@.len() && self.items@[i] == x;
                lemma_root_first(self.items@, i);
            }
        } else {
            assert(self@ =~= Set::<Entry>::empty());
        }
    }

    /// The empty heap, with room for `capacity` entries.
    pub fn with_capacity(capacity: usize) -> (r: MinHeap)
        ensures
            r.wf(),
            r@ == Set::<Entry>::empty(),
    {
        let r = MinHeap { items: Vec::with_capacity(capacity) };
        proof {
            assert(r@ =~= Set::<Entry>::empty());
        }
        r
    }

    /// The entry at the root, where there is one.
    pub fn peek(&self) -> (r: Option<Entry>)
        ensures
            r == self.first(),
    {
        if self.items.len() > 0 {
            Some(self.items[0])
        } else {
            None
        }
    }

    /// Adds `entry` to the heap.
    pub fn push(&mut self, entry: Entry)
        requires
            old(self).wf(),
            !old(self)@.contains(entry),
        ensures
            final(self).wf(),
            final(self)@ == old(self)@.insert(entry),
    {
        proof {
            lemma_pushed(self.items@, entry);
        }
        self.items.push(entry);
        let mut i: usize = self.items.len() - 1;
        while i > 0
            invariant
                0 <= i < self.items@.len(),
                entries(self.items@) == old(self)@.insert(entry),
                self.items@.no_duplicates(),
                ordered_but(self.items@, i as int),
                bridged(self.items@, i as int),
            ensures
                entries(self.items@) == old(self)@.insert(entry),
                self.items@.no_duplicates(),
                ordered_but(self.items@, 0),
            decreases i,
        {
            let parent = (i - 1) / 2;
            let here = self.items[i];
            let above = self.items[parent];
            if above.0 <= here.0 {
                break ;
            }
            proof {
                lemma_swap(self.items@, i as int, parent as int);
            }
            let ghost before = self.items@;
            self.items[i] = above;
            self.items[parent] = here;
            proof {
                let after = self.items@;
                assert(after == before.update(i as int, above).update(parent as int, here));
                assert forall|k: int| 1 <= k < after.len() && k != parent implies after[(k - 1)
                    / 2].0 <= (#[trigger] after[k]).0 by {
                    if k == i {
                    } else if (k - 1) / 2 == i {
                        assert(before[(i - 1) / 2].0 <= before[k].0);
                    } else if (k - 1) / 2 == parent {
                        assert(before[parent as int].0 <= before[k].0);
                    } else {
                        assert(before[(k - 1) / 2].0 <= before[k].0);
                    }
                }
                assert forall|k: int|
                    1 <= k < after.len() && parent >= 1 && (k - 1) / 2 == parent implies after[(
                    parent - 1) / 2].0 <= (#[trigger] after[k]).0 by {
                    assert(before[(parent - 1) / 2].0 <= before[parent as int].0);
                    if k != i {
                        assert(before[parent as int].0 <= before[k].0);
                    }
                }
            }
            i = parent;
        }
    }

    /// Takes the entry at the root out of the heap, where there is one.
    pub fn pop(&mut self) -> (r: Option<Entry>)
        requires
            old(self).wf(),
        ensures
            final(self).wf(),
            r == old(self).first(),
            match r {
                Some(e) => final(self)@ == old(self)@.remove(e),
                None => final(self)@ == old(self)@,
            },
    {
        let n = self.items.len();
        if n == 0 {
            return None;
        }
        let top = self.items[0];
        let ghost full = self.items@;
        proof {
            lemma_replace_root(full);
        }
        let last = match self.items.pop() {
            Some(last) => last,
            None => top,
        };
        if n == 1 {
            return Some(top);
        }
        self.items[0] = last;
        let m = n - 1;
        let mut i: usize = 0;
        loop
            invariant
                m == self.items@.len(),
                0 <= i < m,
                entries(self.items@) == old(self)@.remove(top),
                self.items@.no_duplicates(),
                forall|k: int|
                    1 <= k < m && (k - 1) / 2 != i ==> self.items@[(k - 1) / 2].0 <= (
                    #[trigger] self.items@[k]).0,
                forall|k: int|
                    1 <= k < m && i >= 1 && (k - 1) / 2 == i ==> self.items@[(i - 1) / 2].0 <= (
                    #[trigger] self.items@[k]).0,
            ensures
                m == self.items@.len(),
                entries(self.items@) == old(self)@.remove(top),
                self.items@.no_duplicates(),
                ordered_but(self.items@, 0),
            decreases m - i,
        {
            if i > (m - 1) / 2 {
                break ;
            }
            let left = 2 * i + 1;
            if left >= m {
                break ;
            }
            let right = left + 1;
            let child = if right < m && self.items[right].0 < self.items[left].0 {
                right
            } else {
                left
            };
            let here = self.items[i];
            let below = self.items[child];
            if here.0 <= below.0 {
                proof {
                    assert(self.items@[left as int].0 >= below.0);
                }
                break ;
            }
            proof {
                lemma_swap(self.items@, i as int, child as int);
            }
            let ghost before = self.items@;
            self.items[i] = below;
            self.items[child] = here;
            proof {
                let after = self.items@;
                assert(after == before.update(i as int, below).update(child as int, here));
                assert forall|k: int| 1 <= k < m && (k - 1) / 2 != child implies after[(k - 1)
                    / 2].0 <= (#[trigger] after[k]).0 by {
                    if (k - 1) / 2 == i {
                        assert(k == left || k == right);
                    } else if k == i {
                        assert(before[(i - 1) / 2].0 <= before[child as int].0);
                    } else {
                        assert(before[(k - 1) / 2].0 <= before[k].0);
                    }
                }
                assert forall|k: int| 1 <= k < m && (k - 1) / 2 == child implies after[(child - 1)
                    / 2].0 <= (#[trigger] after[k]).0 by {
                    assert(before[child as int].0 <= before[k].0);
                }
            }
            i = child;
        }
        Some(top)
    }
}

} // verus!
