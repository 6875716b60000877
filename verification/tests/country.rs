use holidays::country::{COUNTRY_COUNT, N_WORDS, WORD_BITS};
use holidays::{Country, CountryParseError, CountrySet, CountryTable};

fn country(ordinal: u16) -> Country {
    Country::new(ordinal).unwrap()
}

fn set_of(ordinals: &[u16]) -> CountrySet {
    let mut set = CountrySet::new();
    for &ordinal in ordinals {
        set.insert(country(ordinal));
    }
    set
}

fn ordinals_of(set: &CountrySet) -> Vec<usize> {
    let mut pass = set.iter();
    let mut found = Vec::new();
    while let Some(next) = pass.next() {
        found.push(next.index());
    }
    found
}

#[test]
fn a_country_is_an_ordinal_below_the_count() {
    assert_eq!(Country::new(0).map(|c| c.index()), Some(0));
    assert_eq!(Country::new(149).map(|c| c.index()), Some(149));
    assert_eq!(Country::new(COUNTRY_COUNT as u16), None);
    assert_eq!(Country::new(u16::MAX), None);
}

#[test]
fn the_words_cover_every_ordinal() {
    assert!(N_WORDS * WORD_BITS >= COUNTRY_COUNT);
    assert!((N_WORDS - 1) * WORD_BITS < COUNTRY_COUNT);
}

#[test]
fn contains_after_insert() {
    let mut set = CountrySet::new();
    for ordinal in [0u16, 1, 63, 64, 65, 127, 128, 149] {
        assert!(!set.contains(country(ordinal)));
        set.insert(country(ordinal));
        assert!(set.contains(country(ordinal)));
    }
    assert!(!set.contains(country(2)));
    assert!(!set.contains(country(148)));
}

#[test]
fn extend_adds_every_country_of_the_list() {
    let mut set = set_of(&[3]);
    set.extend(&[country(70), country(140), country(70)]);
    assert_eq!(ordinals_of(&set), vec![3, 70, 140]);
}

#[test]
fn iteration_is_ascending_and_stays_below_the_count() {
    let set = set_of(&[149, 0, 64, 63, 128, 7]);
    assert_eq!(ordinals_of(&set), vec![0, 7, 63, 64, 128, 149]);
    assert_eq!(ordinals_of(&CountrySet::new()), Vec::<usize>::new());
    let all = ordinals_of(&CountrySet::all());
    assert_eq!(all, (0..COUNTRY_COUNT).collect::<Vec<usize>>());
}

#[test]
fn an_exhausted_pass_stays_exhausted() {
    let mut pass = set_of(&[5]).iter();
    assert_eq!(pass.next().map(|c| c.index()), Some(5));
    assert_eq!(pass.next(), None);
    assert_eq!(pass.next(), None);
}

#[test]
fn union_and_intersection() {
    let a = set_of(&[1, 64, 130]);
    let b = set_of(&[2, 64, 149]);
    assert_eq!(ordinals_of(&a.union(b)), vec![1, 2, 64, 130, 149]);
    assert_eq!(ordinals_of(&a.intersection(b)), vec![64]);
}

#[test]
fn set_algebra_laws_on_examples() {
    let a = set_of(&[1, 64, 130]);
    let b = set_of(&[2, 64, 149]);
    let c = set_of(&[1, 2, 3, 100]);
    assert_eq!(a.union(b), b.union(a));
    assert_eq!(a.intersection(b), b.intersection(a));
    assert_eq!(a.union(b).union(c), a.union(b.union(c)));
    assert_eq!(a.intersection(b).intersection(c), a.intersection(b.intersection(c)));
    assert_eq!(a.union(a), a);
    assert_eq!(a.intersection(a), a);
    assert_eq!(a.union(CountrySet::new()), a);
    assert_eq!(a.intersection(CountrySet::all()), a);
}

fn codes() -> Vec<[u8; 2]> {
    let mut codes = Vec::new();
    for i in 0..COUNTRY_COUNT {
        codes.push([b'A' + (i / 26) as u8, b'A' + (i % 26) as u8]);
    }
    codes
}

fn names() -> Vec<&'static str> {
    let mut names = vec!["Somewhere"; COUNTRY_COUNT];
    names[0] = "First";
    names[149] = "Last";
    names
}

#[test]
fn codes_are_found_by_binary_search() {
    let table = CountryTable::new(codes(), names()).unwrap();
    assert_eq!(table.parse("AA").map(|c| c.index()), Ok(0));
    assert_eq!(table.parse("AB").map(|c| c.index()), Ok(1));
    assert_eq!(table.parse("BA").map(|c| c.index()), Ok(26));
    assert_eq!(table.parse("FT").map(|c| c.index()), Ok(149));
    assert_eq!(table.code_of(country(27)), *b"BB");
    assert_eq!(table.name_of(country(0)), "First");
    assert_eq!(table.name_of(country(149)), "Last");
    assert_eq!(table.name_of(country(1)), "Somewhere");
}

#[test]
fn unknown_codes_are_not_available() {
    let table = CountryTable::new(codes(), names()).unwrap();
    assert_eq!(table.parse("FU"), Err(CountryParseError));
    assert_eq!(table.parse("ZZ"), Err(CountryParseError));
    assert_eq!(table.parse("A"), Err(CountryParseError));
    assert_eq!(table.parse("AAA"), Err(CountryParseError));
    assert_eq!(table.parse(""), Err(CountryParseError));
    assert_eq!(table.parse("aa"), Err(CountryParseError));
    assert_eq!(table.parse("é"), Err(CountryParseError));
    assert_eq!(CountryParseError.message(), "Country is not available");
}

#[test]
fn a_country_table_needs_a_sorted_code_for_every_country() {
    let mut short = codes();
    short.pop();
    assert!(CountryTable::new(short, names()).is_none());
    let mut swapped = codes();
    swapped.swap(10, 11);
    assert!(CountryTable::new(swapped, names()).is_none());
    let mut twice = codes();
    twice[5] = twice[4];
    assert!(CountryTable::new(twice, names()).is_none());
    let mut few_names = names();
    few_names.pop();
    assert!(CountryTable::new(codes(), few_names).is_none());
}
