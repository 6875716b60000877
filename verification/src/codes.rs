//! The two-letter codes and the names of the countries.

use crate::country::{Country, COUNTRY_COUNT};
use vstd::prelude::*;
use vstd::string::StringSliceAdditionalSpecFns;

verus! {

/// The country code is not the code of a country of the table.
#[derive(Clone, Copy, Debug, PartialEq, Eq, Structural)]
pub struct CountryParseError;

impl CountryParseError {
    /// What went wrong, in words.
    pub fn message(&self) -> (r: &'static str)
        ensures
            r@ == "Country is not available"@,
    {
        "Country is not available"
    }
}

/// Whether code `a` comes before code `b` in the order of the codes.
pub open spec fn code_before(a: [u8; 2], b: [u8; 2]) -> bool {
    a[0] < b[0] || (a[0] == b[0] && a[1] < b[1])
}

/// Whether code `a` comes before code `b` in the order of the codes.
fn comes_before(a: &[u8; 2], b: &[u8; 2]) -> (r: bool)
    ensures
        r == code_before(*a, *b),
{
    a[0] < b[0] || (a[0] == b[0] && a[1] < b[1])
}

/// The code and the name of each country, by ordinal. The ordinals follow
/// the order of the codes.
pub struct CountryTable {
    codes: Vec<[u8; 2]>,
    names: Vec<&'static str>,
}

impl CountryTable {
    #[verifier::type_invariant]
    spec fn ordered(self) -> bool {
        &&& self.codes@.len() == COUNTRY_COUNT
        &&& self.names@.len() == COUNTRY_COUNT
        &&& forall|i: int, j: int|
            0 <= i < j < self.codes@.len() ==> code_before(
                #[trigger] self.codes@[i],
                #[trigger] self.codes@[j],
            )
    }

    /// The code of the country with ordinal `ordinal`.
    pub closed spec fn code(self, ordinal: int) -> [u8; 2] {
        self.codes@[ordinal]
    }

    /// The name of the country with ordinal `ordinal`.
    pub closed spec fn name(self, ordinal: int) -> &'static str {
        self.names@[ordinal]
    }

    /// The table of the codes `codes` and the names `names`, where there
    /// is one of each for every country and each code comes after the one
    /// before it.
    pub fn new(codes: Vec<[u8; 2]>, names: Vec<&'static str>) -> (r: Option<CountryTable>)
        ensures
            r is Some <==> codes@.len() == COUNTRY_COUNT && names@.len() == COUNTRY_COUNT
                && forall|i: int|
                0 < i < codes@.len() ==> code_before(codes@[i - 1], #[trigger] codes@[i]),
            r matches Some(table) ==> forall|i: int|
                0 <= i < COUNTRY_COUNT ==> #[trigger] table.code(i) == codes@[i] && table.name(i)
                    == names@[i],
    {
        if codes.len() != COUNTRY_COUNT || names.len() != COUNTRY_COUNT {
            return None;
        }
        let mut i: usize = 1;
        while i < COUNTRY_COUNT
            invariant
                1 <= i <= COUNTRY_COUNT == codes@.len(),
                forall|a: int, b: int|
                    0 <= a < b < i ==> code_before(#[trigger] codes@[a], #[trigger] codes@[b]),
                forall|a: int| 0 < a < i ==> code_before(codes@[a - 1], #[trigger] codes@[a]),
            decreases COUNTRY_COUNT - i,
        {
            if !comes_before(&codes[i - 1], &codes[i]) {
                return None;
            }
            proof {
                assert forall|a: int, b: int| 0 <= a < b < i + 1 implies code_before(
                    #[trigger] codes@[a],
                    #[trigger] codes@[b],
                ) by {
                    if b == i && a < i - 1 {
                        assert(code_before(codes@[a], codes@[i - 1]));
                    }
                }
            }
            i += 1;
        }
        Some(CountryTable { codes, names })
    }

    /// The two-letter code of `country`.
    pub fn code_of(&self, country: Country) -> (r: [u8; 2])
        ensures
            r == self.code(country.ordinal()),
    {
        proof {
            use_type_invariant(self);
        }
        self.codes[country.index()]
    }

    /// The name of `country`.
    pub fn name_of(&self, country: Country) -> (r: &'static str)
        ensures
            r == self.name(country.ordinal()),
    {
        proof {
            use_type_invariant(self);
        }
        self.names[country.index()]
    }

    /// The country with the two-letter code `code`; an error where no
    /// country of the table has that code.
    pub fn parse(&self, code: &str) -> (r: Result<Country, CountryParseError>)
        ensures
            match r {
                Ok(country) => 0 <= country.ordinal() < COUNTRY_COUNT && code.spec_bytes()
                    == self.code(country.ordinal())@,
                Err(_) => forall|i: int|
                    0 <= i < COUNTRY_COUNT ==> code.spec_bytes() != (#[trigger] self.code(i))@,
            },
    {
        proof {
            use_type_invariant(self);
        }
        let bytes = code.as_bytes();
        if bytes.len() != 2 {
            return Err(CountryParseError);
        }
        let wanted: [u8; 2] = [bytes[0], bytes[1]];
        proof {
            assert(wanted@ =~= code.spec_bytes());
        }
        let mut lo: usize = 0;
        let mut hi: usize = COUNTRY_COUNT;
        while lo < hi
            invariant
                lo <= hi <= COUNTRY_COUNT == self.codes@.len(),
                forall|i: int, j: int|
                    0 <= i < j < self.codes@.len() ==> code_before(
                        #[trigger] self.codes@[i],
                        #[trigger] self.codes@[j],
                    ),
                forall|i: int| 0 <= i < lo ==> code_before(#[trigger] self.codes@[i], wanted),
                forall|i: int|
                    hi <= i < COUNTRY_COUNT ==> !code_before(#[trigger] self.codes@[i], wanted),
            decreases hi - lo,
        {
            let mid = lo + (hi - lo) / 2;
            if comes_before(&self.codes[mid], &wanted) {
                proof {
                    assert forall|i: int| 0 <= i < mid + 1 implies code_before(
                        #[trigger] self.codes@[i],
                        wanted,
                    ) by {
                        if i < mid {
                            assert(code_before(self.codes@[i], self.codes@[mid as int]));
                        }
                    }
                }
                lo = mid + 1;
            } else {
                proof {
                    assert forall|i: int| mid <= i < COUNTRY_COUNT implies !code_before(
                        #[trigger] self.codes@[i],
                        wanted,
                    ) by {
                        if mid < i {
                            assert(code_before(self.codes@[mid as int], self.codes@[i]));
                        }
                    }
                }
                hi = mid;
            }
        }
        if lo < COUNTRY_COUNT && self.codes[lo][0] == wanted[0] && self.codes[lo][1] == wanted[1] {
            proof {
                assert(self.codes@[lo as int]@ =~= wanted@);
            }
            match Country::new(lo as u16) {
                Some(country) => Ok(country),
                None => Err(CountryParseError),
            }
        } else {
            proof {
                assert forall|i: int| 0 <= i < COUNTRY_COUNT implies code.spec_bytes() != (
                #[trigger] self.code(i))@ by {
                    if code.spec_bytes() == self.code(i)@ {
                        assert(self.codes@[i]@[0] == wanted@[0]);
                        assert(self.codes@[i]@[1] == wanted@[1]);
                        if i < lo {
                            assert(code_before(self.codes@[i], wanted));
                        } else if i > lo {
                            assert(code_before(self.codes@[lo as int], self.codes@[i]));
                            assert(!code_before(self.codes@[lo as int], wanted));
                        }
                    }
                }
            }
            Err(CountryParseError)
        }
    }
}

} // verus!
