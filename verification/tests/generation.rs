use combocount::generate::dict_for_with_len;
use combocount::generate::generate;
use combocount::generate::GenerateError;

fn cv(s: &str) -> Vec<char> {
    s.chars().collect()
}

fn sv(v: &Vec<char>) -> String {
    v.iter().collect()
}

#[test]
fn two_symbol_range_in_order() {
    let combos = generate(&cv("ab"), &cv("aa"), &cv("bb")).unwrap();
    let got: Vec<String> = combos.iter().map(sv).collect();
    assert_eq!(got, vec!["aa", "ab", "ba", "bb"]);
}

#[test]
fn equal_boundaries_single_combination() {
    let combos = generate(&cv("ab"), &cv("ab"), &cv("ab")).unwrap();
    let got: Vec<String> = combos.iter().map(sv).collect();
    assert_eq!(got, vec!["ab"]);
}

#[test]
fn partial_range_between_boundaries() {
    let combos = generate(&cv("abc"), &cv("ab"), &cv("ca")).unwrap();
    let got: Vec<String> = combos.iter().map(sv).collect();
    assert_eq!(got, vec!["ab", "ac", "ba", "bb", "bc", "ca"]);
}

#[test]
fn full_space_has_alphabet_size_to_the_length() {
    let combos = dict_for_with_len(&cv("abc"), 2).unwrap();
    assert_eq!(combos.len(), 9);
    let got: Vec<String> = combos.iter().map(sv).collect();
    assert_eq!(got, vec!["aa", "ab", "ac", "ba", "bb", "bc", "ca", "cb", "cc"]);
    let mut sorted = got.clone();
    sorted.sort();
    sorted.dedup();
    assert_eq!(got, sorted);
}

#[test]
fn full_space_length_three() {
    let combos = dict_for_with_len(&cv("ab"), 3).unwrap();
    assert_eq!(combos.len(), 8);
    let got: Vec<String> = combos.iter().map(sv).collect();
    assert_eq!(got[0], "aaa");
    assert_eq!(got[7], "bbb");
}

#[test]
fn reversed_boundaries_yield_nothing() {
    let combos = generate(&cv("ab"), &cv("bb"), &cv("aa")).unwrap();
    assert!(combos.is_empty());
}

#[test]
fn unequal_boundary_lengths_rejected() {
    let r = generate(&cv("ab"), &cv("a"), &cv("bb"));
    assert_eq!(r.unwrap_err(), GenerateError::InvalidFormat);
}

#[test]
fn boundary_symbol_outside_alphabet_rejected() {
    let r = generate(&cv("ab"), &cv("ax"), &cv("bb"));
    assert_eq!(r.unwrap_err(), GenerateError::InvalidFormat);
}

#[test]
fn undersized_alphabet_rejected() {
    let r = generate(&cv("a"), &cv("aa"), &cv("aa"));
    assert_eq!(r.unwrap_err(), GenerateError::InvalidFormat);
    let r2 = dict_for_with_len(&cv("a"), 2);
    assert_eq!(r2.unwrap_err(), GenerateError::InvalidFormat);
}
