use word_frequency_analysis::freq::{
    chapter_frequencies, file_frequency, merge_counts, overwrite_counts, phrase_frequency,
    word_frequency,
};
use word_frequency_analysis::text::tokenize;

fn strings(words: &[&str]) -> Vec<String> {
    words.iter().map(|w| w.to_string()).collect()
}

fn lookup(es: &[(String, usize)], w: &str) -> Option<usize> {
    es.iter().find(|e| e.0 == w).map(|e| e.1)
}

#[test]
fn word_frequency_counts_each_word() {
    let es = word_frequency(&strings(&["a", "b", "a", "a", "c", "b"]));
    assert_eq!(lookup(&es, "a"), Some(3));
    assert_eq!(lookup(&es, "b"), Some(2));
    assert_eq!(lookup(&es, "c"), Some(1));
    assert_eq!(es.len(), 3);
}

#[test]
fn word_frequency_total_equals_token_count() {
    let text = "the cat sat on the mat, the end.";
    let tokens = tokenize(text);
    let es = word_frequency(&tokens);
    let total: usize = es.iter().map(|e| e.1).sum();
    assert_eq!(total, tokens.len());
}

#[test]
fn word_frequency_is_case_sensitive() {
    let es = word_frequency(&strings(&["The", "the"]));
    assert_eq!(lookup(&es, "The"), Some(1));
    assert_eq!(lookup(&es, "the"), Some(1));
}

#[test]
fn phrase_non_overlap() {
    let es = phrase_frequency("aaaa", &strings(&["aa"]));
    assert_eq!(es, vec![("aa".to_string(), 2)]);
}

#[test]
fn phrase_missing_yields_zero_entry() {
    let es = phrase_frequency("nothing here", &strings(&["absent phrase"]));
    assert_eq!(es, vec![("absent phrase".to_string(), 0)]);
}

#[test]
fn phrase_counts_left_to_right() {
    let es = phrase_frequency("the cat and the cat and", &strings(&["the cat", "and"]));
    assert_eq!(lookup(&es, "the cat"), Some(2));
    assert_eq!(lookup(&es, "and"), Some(2));
}

#[test]
fn merge_adds_counts_keywise() {
    let a = vec![("x".to_string(), 2usize), ("y".to_string(), 1usize)];
    let b = vec![("y".to_string(), 4usize), ("z".to_string(), 5usize)];
    let m = merge_counts(a, &b);
    assert_eq!(lookup(&m, "x"), Some(2));
    assert_eq!(lookup(&m, "y"), Some(5));
    assert_eq!(lookup(&m, "z"), Some(5));
    assert_eq!(m.len(), 3);
}

#[test]
fn overwrite_replaces_colliding_keys() {
    let a = vec![("x".to_string(), 2usize), ("y".to_string(), 1usize)];
    let b = vec![("y".to_string(), 9usize), ("z".to_string(), 0usize)];
    let m = overwrite_counts(a, &b);
    assert_eq!(lookup(&m, "x"), Some(2));
    assert_eq!(lookup(&m, "y"), Some(9));
    assert_eq!(lookup(&m, "z"), Some(0));
}

#[test]
fn chapter_frequencies_phrase_overwrites_word() {
    let tokens = tokenize("red fox red");
    let es = chapter_frequencies(&tokens, "red fox red", &strings(&["red"]));
    // the phrase count of "red" (2 raw occurrences) replaces the word count
    assert_eq!(lookup(&es, "red"), Some(2));
    assert_eq!(lookup(&es, "fox"), Some(1));
}

#[test]
fn file_frequency_sums_chapters() {
    let chapters = vec![
        vec![("a".to_string(), 1usize), ("b".to_string(), 2usize)],
        vec![("b".to_string(), 3usize), ("c".to_string(), 4usize)],
    ];
    let m = file_frequency(&chapters).unwrap();
    assert_eq!(lookup(&m, "a"), Some(1));
    assert_eq!(lookup(&m, "b"), Some(5));
    assert_eq!(lookup(&m, "c"), Some(4));
}

#[test]
fn file_frequency_overflow_is_none() {
    let chapters = vec![
        vec![("a".to_string(), usize::MAX)],
        vec![("a".to_string(), 1usize)],
    ];
    assert!(file_frequency(&chapters).is_none());
}

#[test]
fn merge_is_commutative_on_values() {
    let a = vec![("p".to_string(), 1usize), ("q".to_string(), 2usize)];
    let b = vec![("q".to_string(), 3usize), ("r".to_string(), 4usize)];
    let ab = merge_counts(a.clone(), &b);
    let ba = merge_counts(b.clone(), &a);
    for key in ["p", "q", "r"] {
        assert_eq!(lookup(&ab, key), lookup(&ba, key));
    }
}
