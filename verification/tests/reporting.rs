use combocount::count::count_combinations;
use combocount::report::filtered_records;

fn cv(s: &str) -> Vec<char> {
    s.chars().collect()
}

fn corpus(lines: &[&str]) -> Vec<Vec<char>> {
    lines.iter().map(|l| cv(l)).collect()
}

fn sv(v: &Vec<char>) -> String {
    v.iter().collect()
}

#[test]
fn zero_filter_drops_exactly_the_zero_counters() {
    let lines = corpus(&["abc"]);
    let combos = vec![cv("ab"), cv("xy"), cv("bc")];
    let t = count_combinations(&lines, &combos);
    let records = filtered_records(&t, false);
    let got: Vec<(String, u64)> = records.iter().map(|r| (sv(&r.key), r.count)).collect();
    assert_eq!(got, vec![("ab".to_string(), 1), ("bc".to_string(), 1)]);
    for r in &records {
        assert!(r.count > 0);
    }
}

#[test]
fn include_zeros_keeps_one_record_per_combination() {
    let lines = corpus(&["abc"]);
    let combos = vec![cv("ab"), cv("xy"), cv("bc")];
    let t = count_combinations(&lines, &combos);
    let records = filtered_records(&t, true);
    let got: Vec<(String, u64)> = records.iter().map(|r| (sv(&r.key), r.count)).collect();
    assert_eq!(
        got,
        vec![("ab".to_string(), 1), ("xy".to_string(), 0), ("bc".to_string(), 1)]
    );
}

#[test]
fn empty_corpus_with_zero_filter_gives_empty_report() {
    let lines: Vec<Vec<char>> = Vec::new();
    let combos = vec![cv("aa"), cv("ab")];
    let t = count_combinations(&lines, &combos);
    let records = filtered_records(&t, false);
    assert!(records.is_empty());
    let kept = filtered_records(&t, true);
    assert_eq!(kept.len(), 2);
    assert_eq!(kept[0].count, 0);
    assert_eq!(kept[1].count, 0);
}
