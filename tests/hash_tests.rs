use std::collections::hash_map::DefaultHasher;
use std::hash::{Hash, Hasher};

use nametable::{name_hash, NameTable, NameTableIdx, StaticHashedNameTable};

#[derive(Clone, Copy)]
enum NameEnum1 {
    FIRST,
    SECOND,
    THIRD,
}

impl NameTableIdx for NameEnum1 {
    fn to_index(&self) -> usize {
        match self {
            NameEnum1::FIRST => 0,
            NameEnum1::SECOND => 1,
            NameEnum1::THIRD => 2,
        }
    }
}

#[derive(Clone, Copy)]
enum NameEnum2 {
    FOURTH,
    FIFTH,
    SIXTH,
}

impl NameTableIdx for NameEnum2 {
    fn to_index(&self) -> usize {
        match self {
            NameEnum2::FOURTH => 3,
            NameEnum2::FIFTH => 4,
            NameEnum2::SIXTH => 5,
        }
    }
}

fn name_data_1() -> &'static str {
    "FIRSTSECONDTHIRD"
}

fn index_data_1() -> &'static [usize] {
    &[0, 5, 11, 16]
}

fn hash_data_1() -> &'static [(u64, usize)] {
    &[]
}

fn name_data_2() -> &'static str {
    "FOURTHFIFTHSIXTHSEVENTH"
}

fn index_data_2() -> &'static [usize] {
    &[0, 6, 11, 16, 23]
}

/// Builds the sorted hash index of a list of names, as build tooling would.
fn hash_index_of(names: &[&str]) -> &'static [(u64, usize)] {
    let mut pairs: Vec<(u64, usize)> = names
        .iter()
        .enumerate()
        .map(|(i, n)| (name_hash(n), i))
        .collect();
    pairs.sort_by(|&(a, _), &(b, _)| a.cmp(&b));
    Box::leak(pairs.into_boxed_slice())
}

fn hash_data_2() -> &'static [(u64, usize)] {
    hash_index_of(&["FOURTH", "FIFTH", "SIXTH", "SEVENTH"])
}

#[test]
fn hash_tests_test1() {
    let hash_data_2: &'static [(u64, usize)] = hash_data_2();

    let tbl = StaticHashedNameTable::new_upon(
        name_data_2(),
        index_data_2(),
        hash_data_2,
        StaticHashedNameTable::new(name_data_1(), index_data_1(), hash_data_1()),
    );

    assert!(hash_data_2.len() == 4);
    let fourth_hash = name_hash("FOURTH");
    let result = hash_data_2.binary_search_by(|&(a, _)| a.cmp(&fourth_hash));
    assert!(result.is_ok());
    if let Ok(val) = result {
        assert!(tbl.at_local(hash_data_2[val].1) == "FOURTH");
    }

    assert!(tbl.len() == 7);
    assert!(tbl.parent().is_some());

    assert!(tbl.initial_local() == 3);
    assert!(tbl.len_local() == 4);
    assert!(tbl.at_local(0) == "FOURTH");
    assert!(tbl.at_local(1) == "FIFTH");
    assert!(tbl.at_local(2) == "SIXTH");
    assert!(tbl.at_local(3) == "SEVENTH");

    assert!(tbl.find_local("FOURTH").unwrap() == 0);
    assert!(tbl.find_local("FIFTH").unwrap() == 1);
    assert!(tbl.find_local("FIRST").is_none());
    assert!(tbl.find_local("UNEXIST").is_none());

    assert!(tbl.at(0) == "FIRST");
    assert!(tbl.at(1) == "SECOND");
    assert!(tbl.at(2) == "THIRD");
    assert!(tbl.at(3) == "FOURTH");
    assert!(tbl.at(6) == "SEVENTH");

    assert!(tbl.find("FIRST").unwrap() == 0);
    assert!(tbl.find("THIRD").unwrap() == 2);
    assert!(tbl.find("FOURTH").unwrap() == 3);
    assert!(tbl.find("SEVENTH").unwrap() == 6);
    assert!(tbl.find("UNEXIST").is_none());

    assert!(tbl.index(0) == "FIRST");
    assert!(tbl.index(NameEnum1::FIRST) == "FIRST");
    assert!(tbl.index(NameEnum2::FOURTH) == "FOURTH");
}

#[test]
fn hashed_lookup_agrees_with_linear_scan() {
    let tbl = StaticHashedNameTable::new(name_data_2(), index_data_2(), hash_data_2());
    assert!(tbl.hash_enabled());
    for name in ["FOURTH", "FIFTH", "SIXTH", "SEVENTH", "FIRST", "UNEXIST", "", "FOURTHX"] {
        assert_eq!(tbl.find_local_hashing(name), tbl.find_local_fallback(name));
        assert_eq!(tbl.find_local(name), tbl.find_local_fallback(name));
    }
    assert_eq!(tbl.find_local_hashing("SIXTH"), Some(2));
    assert_eq!(tbl.find_local_hashing("UNEXIST"), None);
}

#[test]
fn empty_hash_index_disables_hashing() {
    let tbl = StaticHashedNameTable::new(name_data_1(), index_data_1(), hash_data_1());
    assert!(!tbl.hash_enabled());
    assert_eq!(tbl.find_local("SECOND"), Some(1));
    assert_eq!(tbl.find_local("FOURTH"), None);
    assert_eq!(tbl.find("THIRD"), Some(2));
}

#[test]
fn name_hash_is_deterministic() {
    assert_eq!(name_hash("FOURTH"), name_hash("FOURTH"));
    assert_eq!(name_hash(&(String::from("FOUR") + "TH")), name_hash("FOURTH"));
    assert_ne!(name_hash("FOURTH"), name_hash("FIFTH"));
}

#[test]
fn name_hash_matches_str_hash() {
    for name in ["FOURTH", "", "Grüße"] {
        let mut h = DefaultHasher::new();
        name.hash(&mut h);
        assert_eq!(name_hash(name), h.finish());
    }
}

#[test]
fn hash_enabled_follows_the_given_index() {
    assert!(StaticHashedNameTable::new(name_data_2(), index_data_2(), hash_data_2()).hash_enabled());
    assert!(!StaticHashedNameTable::new(name_data_2(), index_data_2(), hash_data_1()).hash_enabled());
}

#[test]
fn checked_constructor_accepts_exact_data() {
    let tbl = StaticHashedNameTable::new_checked(name_data_2(), index_data_2(), hash_data_2());
    let tbl = tbl.unwrap();
    assert!(tbl.hash_enabled());
    assert_eq!(tbl.find("SIXTH"), Some(2));
    assert_eq!(tbl.len(), 4);
    let plain = StaticHashedNameTable::new_checked(name_data_1(), index_data_1(), hash_data_1());
    assert!(plain.is_some());
    assert!(!plain.unwrap().hash_enabled());
}

#[test]
fn checked_constructor_rejects_bad_offsets() {
    assert!(StaticHashedNameTable::new_checked(name_data_1(), &[0, 5, 11, 15], hash_data_1()).is_none());
    assert!(StaticHashedNameTable::new_checked(name_data_1(), &[1, 5, 11, 16], hash_data_1()).is_none());
    assert!(StaticHashedNameTable::new_checked(name_data_1(), &[0, 5, 5, 16], hash_data_1()).is_none());
    assert!(StaticHashedNameTable::new_checked(name_data_1(), &[], hash_data_1()).is_none());
    assert!(StaticHashedNameTable::new_checked("Äb", &[0, 1, 3], hash_data_1()).is_none());
    assert!(StaticHashedNameTable::new_checked("Äb", &[0, 2, 3], hash_data_1()).is_some());
}

#[test]
fn checked_constructor_rejects_bad_hash_index() {
    let good = hash_data_2();
    // unsorted
    let mut swapped: Vec<(u64, usize)> = good.to_vec();
    swapped.swap(0, 1);
    let swapped: &'static [(u64, usize)] = Box::leak(swapped.into_boxed_slice());
    assert!(StaticHashedNameTable::new_checked(name_data_2(), index_data_2(), swapped).is_none());
    // a pair pointing at the wrong name
    let mut wrong: Vec<(u64, usize)> = good.to_vec();
    let i0 = wrong[0].1;
    wrong[0].1 = (i0 + 1) % 4;
    let wrong: &'static [(u64, usize)] = Box::leak(wrong.into_boxed_slice());
    assert!(StaticHashedNameTable::new_checked(name_data_2(), index_data_2(), wrong).is_none());
    // too short
    let short: &'static [(u64, usize)] = Box::leak(good[..3].to_vec().into_boxed_slice());
    assert!(StaticHashedNameTable::new_checked(name_data_2(), index_data_2(), short).is_none());
    // index out of range
    let mut far: Vec<(u64, usize)> = good.to_vec();
    far[3].1 = 9;
    let far: &'static [(u64, usize)] = Box::leak(far.into_boxed_slice());
    assert!(StaticHashedNameTable::new_checked(name_data_2(), index_data_2(), far).is_none());
}
