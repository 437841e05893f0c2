use combocount::alphabet::alphabet_of_lines;
use combocount::count::count_combinations;
use combocount::generate::dict_for_with_len;
use combocount::report::filtered_records;

fn cv(s: &str) -> Vec<char> {
    s.chars().collect()
}

fn corpus(lines: &[&str]) -> Vec<Vec<char>> {
    lines.iter().map(|l| cv(l)).collect()
}

fn sv(v: &Vec<char>) -> String {
    v.iter().collect()
}

#[test]
fn every_distinct_symbol_once() {
    let lines = corpus(&["abc", "cab", "bbb"]);
    let alphabet = alphabet_of_lines(&lines);
    assert_eq!(sv(&alphabet), "abc");
}

#[test]
fn empty_corpus_gives_empty_alphabet() {
    let lines: Vec<Vec<char>> = Vec::new();
    let alphabet = alphabet_of_lines(&lines);
    assert!(alphabet.is_empty());
}

#[test]
fn symbols_of_blank_and_unicode_lines_kept() {
    let lines = corpus(&["a b", "\u{e9}a"]);
    let alphabet = alphabet_of_lines(&lines);
    assert_eq!(sv(&alphabet), "a b\u{e9}");
}

#[test]
fn derived_alphabet_drives_the_whole_pipeline() {
    let lines = corpus(&["abab", "ba", "bbba"]);
    let alphabet = alphabet_of_lines(&lines);
    assert_eq!(sv(&alphabet), "ab");
    let combos = dict_for_with_len(&alphabet, 2).unwrap();
    let t = count_combinations(&lines, &combos);
    let records = filtered_records(&t, true);
    let got: Vec<(String, u64)> = records.iter().map(|r| (sv(&r.key), r.count)).collect();
    assert_eq!(
        got,
        vec![
            ("aa".to_string(), 0),
            ("ab".to_string(), 1),
            ("ba".to_string(), 2),
            ("bb".to_string(), 1),
        ]
    );
}
