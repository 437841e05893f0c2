use combocount::count::contains_combination;
use combocount::count::count_combinations;

fn cv(s: &str) -> Vec<char> {
    s.chars().collect()
}

fn corpus(lines: &[&str]) -> Vec<Vec<char>> {
    lines.iter().map(|l| cv(l)).collect()
}

fn get(t: &combocount::count::CountTable, key: &str) -> Option<u64> {
    t.get_count(&cv(key))
}

#[test]
fn counts_lines_not_occurrences() {
    let lines = corpus(&["abc", "xyz", "ababc"]);
    let combos = vec![cv("ab"), cv("bc")];
    let t = count_combinations(&lines, &combos);
    assert_eq!(get(&t, "ab"), Some(2));
    assert_eq!(get(&t, "bc"), Some(2));
}

#[test]
fn repeated_occurrences_in_one_line_count_once() {
    let lines = corpus(&["ababab"]);
    let combos = vec![cv("ab")];
    let t = count_combinations(&lines, &combos);
    assert_eq!(get(&t, "ab"), Some(1));
}

#[test]
fn empty_corpus_leaves_counters_at_zero() {
    let lines: Vec<Vec<char>> = Vec::new();
    let combos = vec![cv("aa"), cv("ab"), cv("ba"), cv("bb")];
    let t = count_combinations(&lines, &combos);
    for c in ["aa", "ab", "ba", "bb"] {
        assert_eq!(get(&t, c), Some(0));
    }
    assert_eq!(t.lines_seen_count(), 0);
}

#[test]
fn short_lines_never_contribute() {
    let lines = corpus(&["ab", "a", "", "xy"]);
    let combos = vec![cv("ab"), cv("a")];
    let t = count_combinations(&lines, &combos);
    assert_eq!(get(&t, "ab"), Some(0));
    assert_eq!(get(&t, "a"), Some(0));
}

#[test]
fn mixed_short_and_long_lines() {
    let lines = corpus(&["ab", "abc"]);
    let combos = vec![cv("ab")];
    let t = count_combinations(&lines, &combos);
    assert_eq!(get(&t, "ab"), Some(1));
    assert_eq!(t.lines_seen_count(), 2);
}

#[test]
fn absent_key_is_none() {
    let lines = corpus(&["abc"]);
    let combos = vec![cv("ab")];
    let t = count_combinations(&lines, &combos);
    assert_eq!(get(&t, "zz"), None);
}

#[test]
fn merged_chunks_match_sequential_scan() {
    let all = corpus(&["abc", "xyz", "ababc", "bcbc", "zz", "cab"]);
    let part1 = corpus(&["abc", "xyz", "ababc"]);
    let part2 = corpus(&["bcbc", "zz", "cab"]);
    let combos = vec![cv("ab"), cv("bc"), cv("xy"), cv("zz")];
    let whole = count_combinations(&all, &combos);
    let mut merged = count_combinations(&part1, &combos);
    let second = count_combinations(&part2, &combos);
    merged.merge(&second);
    for c in ["ab", "bc", "xy", "zz"] {
        assert_eq!(get(&merged, c), get(&whole, c));
    }
    assert_eq!(merged.lines_seen_count(), whole.lines_seen_count());
}

#[test]
fn substring_scan_finds_and_rejects() {
    assert!(contains_combination(&cv("hello"), &cv("ell")));
    assert!(contains_combination(&cv("hello"), &cv("hello")));
    assert!(contains_combination(&cv("hello"), &cv("")));
    assert!(!contains_combination(&cv("hello"), &cv("elo")));
    assert!(!contains_combination(&cv("he"), &cv("hello")));
}
