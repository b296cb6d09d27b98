use wikiscraper::ranking::top_n_entries;
use wikiscraper::words::word_count;

#[test]
fn ranking_is_stable_under_ties() {
    let stats = word_count("bb aa bb cc aa dd".to_string());
    let top = top_n_entries(&stats, 4);
    let keys: Vec<&str> = top.iter().map(|e| e.key.as_str()).collect();
    assert_eq!(keys, vec!["bb", "aa", "cc", "dd"]);
    let counts: Vec<usize> = top.iter().map(|e| e.count).collect();
    assert_eq!(counts, vec![2, 2, 1, 1]);
}

#[test]
fn ranking_sorts_descending() {
    let stats = word_count("cc bb aa bb cc cc".to_string());
    let top = top_n_entries(&stats, 3);
    let keys: Vec<&str> = top.iter().map(|e| e.key.as_str()).collect();
    assert_eq!(keys, vec!["cc", "bb", "aa"]);
    let counts: Vec<usize> = top.iter().map(|e| e.count).collect();
    assert_eq!(counts, vec![3, 2, 1]);
}

#[test]
fn ranking_truncates_to_n() {
    let stats = word_count("aa bb cc dd".to_string());
    assert_eq!(top_n_entries(&stats, 2).len(), 2);
}

#[test]
fn ranking_with_large_n_returns_all() {
    let stats = word_count("aa bb".to_string());
    let top = top_n_entries(&stats, 10);
    assert_eq!(top.len(), 2);
}

#[test]
fn ranking_keeps_variants() {
    let stats = word_count("The the".to_string());
    let top = top_n_entries(&stats, 1);
    assert_eq!(top[0].variants, vec!["The".to_string(), "the".to_string()]);
}
