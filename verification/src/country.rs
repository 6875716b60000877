//! Countries as dense ordinals, and fixed-width sets of them.

use vstd::prelude::*;

verus! {

/// Number of countries that the tables are built for. Ordinals run from 0
/// to `COUNTRY_COUNT - 1`, in the order of the countries' two-letter codes.
pub const COUNTRY_COUNT: usize = 150;

/// Bits in one word of a [`CountrySet`].
pub const WORD_BITS: usize = 64;

/// Words in a [`CountrySet`]: as many as it takes to cover every ordinal.
pub const N_WORDS: usize = (COUNTRY_COUNT + WORD_BITS - 1) / WORD_BITS;

/// A country, known by its ordinal.
#[derive(Clone, Copy, Debug, PartialEq, Eq, Hash, Structural)]
pub struct Country {
    ordinal: u16,
}

impl Country {
    #[verifier::type_invariant]
    spec fn in_range(self) -> bool {
        self.ordinal < COUNTRY_COUNT
    }

    /// The ordinal of the country.
    pub closed spec fn ordinal(self) -> int {
        self.ordinal as int
    }

    /// The country with the given ordinal, if there is one.
    pub fn new(ordinal: u16) -> (r: Option<Country>)
        ensures
            r.is_some() <==> ordinal < COUNTRY_COUNT,
            r matches Some(c) ==> c.ordinal() == ordinal,
    {
        if (ordinal as usize) < COUNTRY_COUNT {
            Some(Country { ordinal })
        } else {
            None
        }
    }

    /// The ordinal of the country, as an index into per-country tables.
    pub fn index(&self) -> (i: usize)
        ensures
            i == self.ordinal(),
            i < COUNTRY_COUNT,
    {
        proof {
            use_type_invariant(self);
        }
        self.ordinal as usize
    }

    /// Two countries with the same ordinal are the same country.
    pub proof fn lemma_ordinal_injective(a: Country, b: Country)
        requires
            a.ordinal() == b.ordinal(),
        ensures
            a == b,
    {
    }
}

/// Whether bit `b` of word `w` is set.
pub open spec fn bit_is_set(w: u64, b: u64) -> bool {
    (w >> b) & 1 == 1
}

proof fn lemma_bit_insert(w: u64, b: u64, j: u64)
    by (bit_vector)
    requires
        b < 64,
        j < 64,
    ensures
        bit_is_set(w | (1u64 << b), j) == (j == b || bit_is_set(w, j)),
{
}

proof fn lemma_bit_or(x: u64, y: u64, j: u64)
    by (bit_vector)
    requires
        j < 64,
    ensures
        bit_is_set(x | y, j) == (bit_is_set(x, j) || bit_is_set(y, j)),
{
}

proof fn lemma_bit_and(x: u64, y: u64, j: u64)
    by (bit_vector)
    requires
        j < 64,
    ensures
        bit_is_set(x & y, j) == (bit_is_set(x, j) && bit_is_set(y, j)),
{
}

proof fn lemma_bit_none(j: u64)
    by (bit_vector)
    requires
        j < 64,
    ensures
        !bit_is_set(0u64, j),
{
}

proof fn lemma_bit_every(j: u64)
    by (bit_vector)
    requires
        j < 64,
    ensures
        bit_is_set(0xffff_ffff_ffff_ffffu64, j),
{
}

proof fn lemma_word_laws(x: u64, y: u64, z: u64)
    by (bit_vector)
    ensures
        x | y == y | x,
        x & y == y & x,
        (x | y) | z == x | (y | z),
        (x & y) & z == x & (y & z),
        x | x == x,
        x & x == x,
{
}

/// A set of countries: one bit per ordinal, in a fixed number of words.
#[derive(Clone, Copy, Debug, PartialEq, Eq)]
pub struct CountrySet {
    words: [u64; N_WORDS],
}

impl View for CountrySet {
    type V = Set<int>;

    /// The ordinals of the countries in the set.
    closed spec fn view(&self) -> Set<int> {
        Set::new(
            |i: int|
                0 <= i < COUNTRY_COUNT && bit_is_set(self.words[i / 64], (i % 64) as u64),
        )
    }
}

impl CountrySet {
    /// The set of no countries.
    pub fn new() -> (r: CountrySet)
        ensures
            r@ == Set::<int>::empty(),
    {
        let r = CountrySet { words: [0u64;N_WORDS] };
        proof {
            assert forall|i: int| !r@.contains(i) by {
                if 0 <= i < COUNTRY_COUNT {
                    vstd::array::axiom_spec_array_fill_for_copy_type::<u64, N_WORDS>(0u64);
                    assert(r.words@[i / 64] == 0u64);
                    lemma_bit_none((i % 64) as u64);
                }
            }
            assert(r@ =~= Set::<int>::empty());
        }
        r
    }

    /// The set of every country.
    pub fn all() -> (r: CountrySet)
        ensures
            forall|i: int| r@.contains(i) <==> 0 <= i < COUNTRY_COUNT,
    {
        let r = CountrySet { words: [0xffff_ffff_ffff_ffffu64;N_WORDS] };
        proof {
            assert forall|i: int| r@.contains(i) <==> 0 <= i < COUNTRY_COUNT by {
                if 0 <= i < COUNTRY_COUNT {
                    vstd::array::axiom_spec_array_fill_for_copy_type::<u64, N_WORDS>(
                        0xffff_ffff_ffff_ffffu64,
                    );
                    assert(r.words@[i / 64] == 0xffff_ffff_ffff_ffffu64);
                    lemma_bit_every((i % 64) as u64);
                }
            }
        }
        r
    }

    /// The set with `country` added.
    pub closed spec fn spec_insert(self, country: Country) -> CountrySet {
        let word = country.ordinal() / 64;
        let bit = (country.ordinal() % 64) as u64;
        CountrySet {
            words: vstd::array::spec_array_update(
                self.words,
                word,
                self.words[word] | (1u64 << bit),
            ),
        }
    }

    /// What the set with `country` added holds: the countries of the set,
    /// and `country`.
    pub proof fn lemma_insert_view(self, country: Country)
        requires
            0 <= country.ordinal() < COUNTRY_COUNT,
        ensures
            self.spec_insert(country)@ == self@.insert(country.ordinal()),
            self.spec_insert(country)@.contains(country.ordinal()),
    {
        let word = country.ordinal() / 64;
        let bit = (country.ordinal() % 64) as u64;
        let r = self.spec_insert(country);
        vstd::array::axiom_spec_array_update(self.words, word, self.words[word] | (1u64 << bit));
        assert forall|i: int| r@.contains(i) == self@.insert(country.ordinal()).contains(i) by {
            if 0 <= i < COUNTRY_COUNT {
                if i / 64 == word {
                    lemma_bit_insert(self.words[word], bit, (i % 64) as u64);
                } else {
                    assert(r.words@[i / 64] == self.words@[i / 64]);
                }
            }
        }
        assert(r@ =~= self@.insert(country.ordinal()));
    }

    /// Adds `country` to the set.
    pub fn insert(&mut self, country: Country)
        ensures
            *final(self) == old(self).spec_insert(country),
            final(self)@ == old(self)@.insert(country.ordinal()),
            final(self)@.contains(country.ordinal()),
    {
        let idx = country.index();
        let word = idx / WORD_BITS;
        let bit = idx % WORD_BITS;
        proof {
            self.lemma_insert_view(country);
        }
        self.words[word] = self.words[word] | (1u64 << bit);
    }

    /// Whether `country` is in the set.
    pub fn contains(&self, country: Country) -> (r: bool)
        ensures
            r == self@.contains(country.ordinal()),
    {
        let idx = country.index();
        let word = idx / WORD_BITS;
        let bit = idx % WORD_BITS;
        (self.words[word] >> bit) & 1 == 1
    }

    /// Adds every country of `countries` to the set.
    pub fn extend(&mut self, countries: &[Country])
        ensures
            forall|i: int|
                final(self)@.contains(i) <==> (old(self)@.contains(i) || exists|k: int|
                    0 <= k < countries@.len() && #[trigger] countries@[k].ordinal() == i),
    {
        let mut n: usize = 0;
        while n < countries.len()
            invariant
                n <= countries@.len(),
                forall|i: int|
                    self@.contains(i) <==> (old(self)@.contains(i) || exists|k: int|
                        0 <= k < n && #[trigger] countries@[k].ordinal() == i),
            decreases countries@.len() - n,
        {
            let ghost before = self@;
            self.insert(countries[n]);
            n += 1;
            proof {
                assert forall|i: int|
                    self@.contains(i) <==> (old(self)@.contains(i) || exists|k: int|
                        0 <= k < n && #[trigger] countries@[k].ordinal() == i) by {
                    if before.contains(i) && !old(self)@.contains(i) {
                        let k = choose|k: int|
                            0 <= k < n - 1 && #[trigger] countries@[k].ordinal() == i;
                        assert(0 <= k < n && countries@[k].ordinal() == i);
                    }
                    if i == countries@[n - 1].ordinal() {
                        assert(0 <= n - 1 < n && countries@[n - 1].ordinal() == i);
                    }
                }
            }
        }
    }

    /// The words of `a`, with the first `n` of them joined bit by bit with
    /// those of `b`: by `|` where `or` holds, by `&` where it does not.
    spec fn joined(a: [u64; N_WORDS], b: [u64; N_WORDS], or: bool, n: int) -> [u64; N_WORDS]
        decreases n,
    {
        if n <= 0 {
            a
        } else {
            vstd::array::spec_array_update(
                Self::joined(a, b, or, n - 1),
                n - 1,
                if or {
                    a[n - 1] | b[n - 1]
                } else {
                    a[n - 1] & b[n - 1]
                },
            )
        }
    }

    proof fn lemma_joined(a: [u64; N_WORDS], b: [u64; N_WORDS], or: bool, n: int)
        requires
            0 <= n <= N_WORDS,
        ensures
            forall|i: int|
                0 <= i < N_WORDS ==> #[trigger] Self::joined(a, b, or, n)[i] == if i < n {
                    if or {
                        a[i] | b[i]
                    } else {
                        a[i] & b[i]
                    }
                } else {
                    a[i]
                },
        decreases n,
    {
        if n > 0 {
            Self::lemma_joined(a, b, or, n - 1);
            vstd::array::axiom_spec_array_update(
                Self::joined(a, b, or, n - 1),
                n - 1,
                if or {
                    a[n - 1] | b[n - 1]
                } else {
                    a[n - 1] & b[n - 1]
                },
            );
        }
    }

    /// The set of the countries that are in `self` or in `rhs`.
    pub closed spec fn spec_union(self, rhs: CountrySet) -> CountrySet {
        CountrySet { words: Self::joined(self.words, rhs.words, true, N_WORDS as int) }
    }

    /// The set of the countries that are in `self` and in `rhs`.
    pub closed spec fn spec_intersection(self, rhs: CountrySet) -> CountrySet {
        CountrySet { words: Self::joined(self.words, rhs.words, false, N_WORDS as int) }
    }

    /// What the union holds.
    pub proof fn lemma_union_view(self, rhs: CountrySet)
        ensures
            self.spec_union(rhs)@ == self@.union(rhs@),
    {
        let r = self.spec_union(rhs);
        Self::lemma_joined(self.words, rhs.words, true, N_WORDS as int);
        assert forall|i: int| r@.contains(i) == self@.union(rhs@).contains(i) by {
            if 0 <= i < COUNTRY_COUNT {
                assert(r.words[i / 64] == self.words[i / 64] | rhs.words[i / 64]);
                lemma_bit_or(self.words[i / 64], rhs.words[i / 64], (i % 64) as u64);
            }
        }
        assert(r@ =~= self@.union(rhs@));
    }

    /// What the intersection holds.
    pub proof fn lemma_intersection_view(self, rhs: CountrySet)
        ensures
            self.spec_intersection(rhs)@ == self@.intersect(rhs@),
    {
        let r = self.spec_intersection(rhs);
        Self::lemma_joined(self.words, rhs.words, false, N_WORDS as int);
        assert forall|i: int| r@.contains(i) == self@.intersect(rhs@).contains(i) by {
            if 0 <= i < COUNTRY_COUNT {
                assert(r.words[i / 64] == self.words[i / 64] & rhs.words[i / 64]);
                lemma_bit_and(self.words[i / 64], rhs.words[i / 64], (i % 64) as u64);
            }
        }
        assert(r@ =~= self@.intersect(rhs@));
    }

    /// Two sets made of the same words are the same set.
    proof fn lemma_same_words(a: CountrySet, b: CountrySet)
        requires
            forall|i: int| 0 <= i < N_WORDS ==> a.words[i] == b.words[i],
        ensures
            a == b,
    {
        assert(a.words =~= b.words);
    }

    /// Union does not depend on the order of its operands.
    pub proof fn lemma_union_commutative(a: CountrySet, b: CountrySet)
        ensures
            a.spec_union(b) == b.spec_union(a),
    {
        Self::lemma_joined(a.words, b.words, true, N_WORDS as int);
        Self::lemma_joined(b.words, a.words, true, N_WORDS as int);
        assert forall|i: int| 0 <= i < N_WORDS implies a.spec_union(b).words[i] == b.spec_union(
            a,
        ).words[i] by {
            lemma_word_laws(a.words[i], b.words[i], 0);
        }
        Self::lemma_same_words(a.spec_union(b), b.spec_union(a));
    }

    /// Intersection does not depend on the order of its operands.
    pub proof fn lemma_intersection_commutative(a: CountrySet, b: CountrySet)
        ensures
            a.spec_intersection(b) == b.spec_intersection(a),
    {
        Self::lemma_joined(a.words, b.words, false, N_WORDS as int);
        Self::lemma_joined(b.words, a.words, false, N_WORDS as int);
        assert forall|i: int|
            0 <= i < N_WORDS implies a.spec_intersection(b).words[i] == b.spec_intersection(
            a,
        ).words[i] by {
            lemma_word_laws(a.words[i], b.words[i], 0);
        }
        Self::lemma_same_words(a.spec_intersection(b), b.spec_intersection(a));
    }

    /// Union does not depend on how its operands are grouped.
    pub proof fn lemma_union_associative(a: CountrySet, b: CountrySet, c: CountrySet)
        ensures
            a.spec_union(b).spec_union(c) == a.spec_union(b.spec_union(c)),
    {
        let ab = a.spec_union(b);
        let bc = b.spec_union(c);
        Self::lemma_joined(a.words, b.words, true, N_WORDS as int);
        Self::lemma_joined(b.words, c.words, true, N_WORDS as int);
        Self::lemma_joined(ab.words, c.words, true, N_WORDS as int);
        Self::lemma_joined(a.words, bc.words, true, N_WORDS as int);
        assert forall|i: int| 0 <= i < N_WORDS implies ab.spec_union(c).words[i] == a.spec_union(
            bc,
        ).words[i] by {
            lemma_word_laws(a.words[i], b.words[i], c.words[i]);
        }
        Self::lemma_same_words(ab.spec_union(c), a.spec_union(bc));
    }

    /// Intersection does not depend on how its operands are grouped.
    pub proof fn lemma_intersection_associative(a: CountrySet, b: CountrySet, c: CountrySet)
        ensures
            a.spec_intersection(b).spec_intersection(c) == a.spec_intersection(
                b.spec_intersection(c),
            ),
    {
        let ab = a.spec_intersection(b);
        let bc = b.spec_intersection(c);
        Self::lemma_joined(a.words, b.words, false, N_WORDS as int);
        Self::lemma_joined(b.words, c.words, false, N_WORDS as int);
        Self::lemma_joined(ab.words, c.words, false, N_WORDS as int);
        Self::lemma_joined(a.words, bc.words, false, N_WORDS as int);
        assert forall|i: int|
            0 <= i < N_WORDS implies ab.spec_intersection(c).words[i] == a.spec_intersection(
            bc,
        ).words[i] by {
            lemma_word_laws(a.words[i], b.words[i], c.words[i]);
        }
        Self::lemma_same_words(ab.spec_intersection(c), a.spec_intersection(bc));
    }

    /// The union of a set with itself is that set, and so is the
    /// intersection.
    pub proof fn lemma_idempotent(a: CountrySet)
        ensures
            a.spec_union(a) == a,
            a.spec_intersection(a) == a,
    {
        Self::lemma_joined(a.words, a.words, true, N_WORDS as int);
        Self::lemma_joined(a.words, a.words, false, N_WORDS as int);
        assert forall|i: int| 0 <= i < N_WORDS implies a.spec_union(a).words[i] == a.words[i]
            && a.spec_intersection(a).words[i] == a.words[i] by {
            lemma_word_laws(a.words[i], a.words[i], 0);
        }
        Self::lemma_same_words(a.spec_union(a), a);
        Self::lemma_same_words(a.spec_intersection(a), a);
    }

    fn join(self, rhs: CountrySet, or: bool) -> (r: CountrySet)
        ensures
            r.words == Self::joined(self.words, rhs.words, or, N_WORDS as int),
    {
        let mut r = self;
        let mut w: usize = 0;
        while w < N_WORDS
            invariant
                w <= N_WORDS,
                r.words == Self::joined(self.words, rhs.words, or, w as int),
            decreases N_WORDS - w,
        {
            proof {
                Self::lemma_joined(self.words, rhs.words, or, w as int);
            }
            let joined = if or {
                r.words[w] | rhs.words[w]
            } else {
                r.words[w] & rhs.words[w]
            };
            r.words[w] = joined;
            w += 1;
        }
        r
    }

    /// The set of the countries that are in `self` or in `rhs`.
    pub fn union(self, rhs: CountrySet) -> (r: CountrySet)
        ensures
            r == self.spec_union(rhs),
            r@ == self@.union(rhs@),
    {
        proof {
            self.lemma_union_view(rhs);
        }
        self.join(rhs, true)
    }

    /// The set of the countries that are in `self` and in `rhs`.
    pub fn intersection(self, rhs: CountrySet) -> (r: CountrySet)
        ensures
            r == self.spec_intersection(rhs),
            r@ == self@.intersect(rhs@),
    {
        proof {
            self.lemma_intersection_view(rhs);
        }
        self.join(rhs, false)
    }
}

impl core::ops::BitOr for CountrySet {
    type Output = CountrySet;

    /// The set of the countries that are in `self` or in `rhs`.
    fn bitor(self, rhs: CountrySet) -> (r: CountrySet)
        ensures
            r@ == self@.union(rhs@),
    {
        self.union(rhs)
    }
}

impl vstd::std_specs::ops::BitOrSpecImpl for CountrySet {
    open spec fn obeys_bitor_spec() -> bool {
        true
    }

    open spec fn bitor_req(self, rhs: CountrySet) -> bool {
        true
    }

    open spec fn bitor_spec(self, rhs: CountrySet) -> CountrySet {
        self.spec_union(rhs)
    }
}

impl core::ops::BitAnd for CountrySet {
    type Output = CountrySet;

    /// The set of the countries that are in `self` and in `rhs`.
    fn bitand(self, rhs: CountrySet) -> (r: CountrySet)
        ensures
            r@ == self@.intersect(rhs@),
    {
        self.intersection(rhs)
    }
}

impl vstd::std_specs::ops::BitAndSpecImpl for CountrySet {
    open spec fn obeys_bitand_spec() -> bool {
        true
    }

    open spec fn bitand_req(self, rhs: CountrySet) -> bool {
        true
    }

    open spec fn bitand_spec(self, rhs: CountrySet) -> CountrySet {
        self.spec_intersection(rhs)
    }
}

/// A single pass over the countries of a [`CountrySet`], in ascending order
/// of their ordinals.
#[derive(Clone, Copy, Debug)]
pub struct CountrySetIter {
    words: [u64; N_WORDS],
    word_idx: usize,
    bit_idx: usize,
}

impl CountrySet {
    /// A pass over the countries of the set, in ascending order.
    pub fn iter(&self) -> (it: CountrySetIter)
        ensures
            it.remaining() == self@,
    {
        let it = CountrySetIter { words: self.words, word_idx: 0, bit_idx: 0 };
        proof {
            assert(it.remaining() =~= self@);
        }
        it
    }
}

impl CountrySetIter {
    #[verifier::type_invariant]
    spec fn in_range(self) -> bool {
        self.word_idx <= N_WORDS && self.bit_idx <= 64
    }

    spec fn position(self) -> int {
        self.word_idx * 64 + self.bit_idx
    }

    /// The ordinals that the pass has yet to yield.
    pub closed spec fn remaining(self) -> Set<int> {
        Set::new(|i: int| self.position() <= i && holds(self.words, i))
    }

    /// A bound on the number of countries that the pass can still yield.
    pub closed spec fn steps_left(self) -> nat {
        ((N_WORDS + 1) * 64 - self.position()) as nat
    }

    /// The ordinals that the pass has yet to yield are ordinals of countries.
    pub proof fn lemma_remaining_in_range(self)
        ensures
            forall|i: int| self.remaining().contains(i) ==> 0 <= i < COUNTRY_COUNT,
    {
    }

    /// The country with the lowest ordinal that is left, or `None` when
    /// none is left.
    pub fn next(&mut self) -> (r: Option<Country>)
        ensures
            match r {
                Some(c) => {
                    &&& 0 <= c.ordinal() < COUNTRY_COUNT
                    &&& old(self).remaining().contains(c.ordinal())
                    &&& forall|i: int| old(self).remaining().contains(i) ==> c.ordinal() <= i
                    &&& final(self).remaining() == old(self).remaining().remove(c.ordinal())
                    &&& forall|i: int| final(self).remaining().contains(i) ==> c.ordinal() < i
                    &&& final(self).steps_left() < old(self).steps_left()
                },
                None => {
                    &&& old(self).remaining() == Set::<int>::empty()
                    &&& final(self).remaining() == Set::<int>::empty()
                },
            },
    {
        proof {
            use_type_invariant(&*self);
        }
        let ghost words = self.words;
        let ghost start = self.position();
        while self.word_idx < N_WORDS
            invariant
                self.word_idx <= N_WORDS,
                self.bit_idx <= 64,
                self.words == words,
                start == old(self).position(),
                words == old(self).words,
                start <= self.position(),
                forall|i: int| start <= i < self.position() ==> !holds(words, i),
            decreases N_WORDS - self.word_idx,
        {
            let word = self.words[self.word_idx];
            if word == 0 {
                proof {
                    assert forall|i: int|
                        self.position() <= i < (self.word_idx + 1) * 64 implies !holds(
                        words,
                        i,
                    ) by {
                        if 0 <= i < COUNTRY_COUNT {
                            assert(i / 64 == self.word_idx);
                            lemma_bit_none((i % 64) as u64);
                        }
                    }
                }
                self.word_idx += 1;
                self.bit_idx = 0;
                continue ;
            }
            let ghost word_idx = self.word_idx;
            while self.bit_idx < 64
                invariant
                    self.word_idx == word_idx,
                    self.word_idx < N_WORDS,
                    self.bit_idx <= 64,
                    self.words == words,
                    start == old(self).position(),
                    words == old(self).words,
                    word == words[self.word_idx as int],
                    start <= self.position(),
                    forall|i: int| start <= i < self.position() ==> !holds(words, i),
                decreases 64 - self.bit_idx,
            {
                let bit = self.bit_idx;
                let idx = self.word_idx * 64 + bit;
                assert(idx / 64 == self.word_idx && idx % 64 == bit);
                self.bit_idx += 1;
                if (word >> bit) & 1 == 1 {
                    if idx < COUNTRY_COUNT {
                        let r = Country::new(idx as u16);
                        proof {
                            assert(holds(words, idx as int));
                            assert(self.remaining() =~= old(self).remaining().remove(idx as int));
                        }
                        return r;
                    } else {
                        proof {
                            assert(old(self).remaining() =~= Set::<int>::empty());
                            assert(self.remaining() =~= Set::<int>::empty());
                        }
                        return None;
                    }
                }
            }
            self.word_idx += 1;
            self.bit_idx = 0;
        }
        proof {
            assert(old(self).remaining() =~= Set::<int>::empty());
            assert(self.remaining() =~= Set::<int>::empty());
        }
        None
    }
}

/// Whether ordinal `i` is an ordinal of a country whose bit is set in
/// `words`.
spec fn holds(words: [u64; N_WORDS], i: int) -> bool {
    0 <= i < COUNTRY_COUNT && bit_is_set(words[i / 64], (i % 64) as u64)
}

} // verus!
