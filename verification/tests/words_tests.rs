use wikiscraper::words::word_analysis;
use wikiscraper::words::word_count;

#[test]
fn case_folding_counts_and_variants() {
    let stats = word_count("The the THE".to_string());
    assert_eq!(stats.entries.len(), 1);
    let e = &stats.entries[0];
    assert_eq!(e.key, "the");
    assert_eq!(e.count, 3);
    assert_eq!(e.variants, vec!["The".to_string(), "the".to_string(), "THE".to_string()]);
}

#[test]
fn separators_never_join_words() {
    let stats = word_count("abc123def, gh!ij".to_string());
    let keys: Vec<&str> = stats.entries.iter().map(|e| e.key.as_str()).collect();
    assert_eq!(keys, vec!["abc", "def", "gh", "ij"]);
}

#[test]
fn hyphen_and_apostrophe_words_are_one_token() {
    let stats = word_count("well-known don't".to_string());
    let keys: Vec<&str> = stats.entries.iter().map(|e| e.key.as_str()).collect();
    assert_eq!(keys, vec!["well-known", "don't"]);
    assert_eq!(stats.entries[0].count, 1);
    assert_eq!(stats.entries[1].count, 1);
}

#[test]
fn single_letters_are_no_words() {
    let stats = word_count("a b c ab".to_string());
    let keys: Vec<&str> = stats.entries.iter().map(|e| e.key.as_str()).collect();
    assert_eq!(keys, vec!["ab"]);
}

#[test]
fn latin1_letters_belong_to_words() {
    let stats = word_count("caf\u{e9} Caf\u{e9}".to_string());
    assert_eq!(stats.entries.len(), 1);
    assert_eq!(stats.entries[0].key, "caf\u{e9}");
    assert_eq!(stats.entries[0].count, 2);
    assert_eq!(
        stats.entries[0].variants,
        vec!["caf\u{e9}".to_string(), "Caf\u{e9}".to_string()]
    );
}

#[test]
fn keys_keep_first_seen_order() {
    let stats = word_count("bb aa bb cc aa".to_string());
    let keys: Vec<&str> = stats.entries.iter().map(|e| e.key.as_str()).collect();
    assert_eq!(keys, vec!["bb", "aa", "cc"]);
    let counts: Vec<usize> = stats.entries.iter().map(|e| e.count).collect();
    assert_eq!(counts, vec![2, 2, 1]);
}

#[test]
fn analysis_concatenates_paragraphs() {
    let paragraphs = vec!["one two ".to_string(), "two three".to_string()];
    let stats = word_analysis(&paragraphs);
    let keys: Vec<&str> = stats.entries.iter().map(|e| e.key.as_str()).collect();
    assert_eq!(keys, vec!["one", "two", "three"]);
    let counts: Vec<usize> = stats.entries.iter().map(|e| e.count).collect();
    assert_eq!(counts, vec![1, 2, 1]);
}

#[test]
fn analysis_of_no_paragraphs_is_empty() {
    let stats = word_analysis(&Vec::new());
    assert_eq!(stats.entries.len(), 0);
}

#[test]
fn word_may_span_a_paragraph_break() {
    let paragraphs = vec!["ab".to_string(), "cd ef".to_string()];
    let stats = word_analysis(&paragraphs);
    let keys: Vec<&str> = stats.entries.iter().map(|e| e.key.as_str()).collect();
    assert_eq!(keys, vec!["abcd", "ef"]);
}
