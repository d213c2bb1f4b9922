use word_frequency_analysis::rank::{
    category_rank, is_numeric_key, prioritize_capitalized_words, sort_entries,
};

fn strings(words: &[&str]) -> Vec<String> {
    words.iter().map(|w| w.to_string()).collect()
}

fn entries(pairs: &[(&str, usize)]) -> Vec<(String, usize)> {
    pairs.iter().map(|p| (p.0.to_string(), p.1)).collect()
}

#[test]
fn numeric_key_is_all_digits() {
    assert!(is_numeric_key("3"));
    assert!(is_numeric_key("120"));
    assert!(!is_numeric_key("12a"));
    assert!(!is_numeric_key("-3"));
    assert!(!is_numeric_key(""));
}

#[test]
fn category_precedence() {
    let phrases = strings(&["apple"]);
    assert_eq!(category_rank("apple", &phrases), 0);
    assert_eq!(category_rank("Apple", &phrases), 1);
    assert_eq!(category_rank("3", &phrases), 3);
    assert_eq!(category_rank("pear", &phrases), 2);
}

#[test]
fn category_order_beats_raw_value() {
    // the phrase match is case-sensitive: only the lowercase spelling
    // matches the configured phrase, and category order beats totals
    let phrases = strings(&["apple"]);
    let sorted = sort_entries(entries(&[("Apple", 5), ("apple", 5), ("3", 10)]), &phrases);
    let keys: Vec<&str> = sorted.iter().map(|e| e.0.as_str()).collect();
    assert_eq!(keys, vec!["apple", "Apple", "3"]);
}

#[test]
fn within_category_totals_descend_then_keys_ascend() {
    let phrases: Vec<String> = Vec::new();
    let sorted = sort_entries(
        entries(&[("pear", 2), ("fig", 7), ("apricot", 2), ("plum", 7)]),
        &phrases,
    );
    let keys: Vec<&str> = sorted.iter().map(|e| e.0.as_str()).collect();
    assert_eq!(keys, vec!["fig", "plum", "apricot", "pear"]);
}

#[test]
fn prioritize_orders_capitalized_lowercase_numeric() {
    let out = prioritize_capitalized_words(&entries(&[
        ("10", 50),
        ("zebra", 4),
        ("Ant", 1),
        ("apple", 9),
        ("Bee", 3),
    ]));
    let keys: Vec<&str> = out.iter().map(|e| e.0.as_str()).collect();
    assert_eq!(keys, vec!["Bee", "Ant", "apple", "zebra", "10"]);
}

#[test]
fn prioritize_breaks_ties_alphabetically() {
    let out = prioritize_capitalized_words(&entries(&[("beta", 2), ("alpha", 2)]));
    let keys: Vec<&str> = out.iter().map(|e| e.0.as_str()).collect();
    assert_eq!(keys, vec!["alpha", "beta"]);
}

#[test]
fn sort_is_permutation() {
    let input = entries(&[("b", 1), ("a", 2), ("c", 3)]);
    let phrases: Vec<String> = Vec::new();
    let mut sorted = sort_entries(input.clone(), &phrases);
    sorted.sort_by(|x, y| x.0.cmp(&y.0));
    let mut expected = input;
    expected.sort_by(|x, y| x.0.cmp(&y.0));
    assert_eq!(sorted, expected);
}
