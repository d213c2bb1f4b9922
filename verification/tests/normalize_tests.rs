use word_frequency_analysis::casing::{is_capitalized, lowercase};
use word_frequency_analysis::digest::{digest_files, Document};
use word_frequency_analysis::normalize::{
    generate_word_corpus_set, normalize_capitalization, normalize_with_corpus,
};

fn strings(words: &[&str]) -> Vec<String> {
    words.iter().map(|w| w.to_string()).collect()
}

#[test]
fn lowercase_is_ascii_scoped() {
    assert_eq!(lowercase("The"), "the");
    assert_eq!(lowercase("ABC-12"), "abc-12");
    assert_eq!(lowercase("already"), "already");
}

#[test]
fn capitalized_means_ascii_uppercase_first() {
    assert!(is_capitalized("Dog"));
    assert!(!is_capitalized("dog"));
    assert!(!is_capitalized("3dog"));
    assert!(!is_capitalized(""));
}

#[test]
fn normalization_rewrites_only_known_lowercase() {
    // the corpus holds "the" but not "dog"
    let corpus = generate_word_corpus_set(&strings(&["the", "cat", "sat", "Dog"]));
    let out = normalize_with_corpus(&strings(&["The", "cat", "sat", "The", "Dog"]), &corpus);
    assert_eq!(out, strings(&["the", "cat", "sat", "the", "Dog"]));
}

#[test]
fn normalization_applies_per_occurrence() {
    let input = strings(&["Run", "run", "Run", "Run"]);
    let out = normalize_capitalization(&input);
    assert_eq!(out, strings(&["run", "run", "run", "run"]));
}

#[test]
fn normalization_keeps_unknown_proper_nouns() {
    let input = strings(&["Paris", "is", "big"]);
    let out = normalize_capitalization(&input);
    assert_eq!(out, input);
}

#[test]
fn normalization_twice_equals_once() {
    let input = strings(&["The", "the", "Dog", "Cat", "cat", "Mixed", "mixed", "UP"]);
    let once = normalize_capitalization(&input);
    let twice = normalize_capitalization(&once);
    assert_eq!(twice, once);
}

#[test]
fn digest_normalizes_across_documents() {
    // "the" only occurs lowercase in the second document, yet the first
    // document's "The" is rewritten: the corpus is corpus-wide.
    let files = vec![
        Document { name: "one".to_string(), text: "The cat".to_string() },
        Document { name: "two".to_string(), text: "the dog".to_string() },
    ];
    let digest = digest_files(&files, "<|eoc|>");
    assert_eq!(digest.tokens[0].chapters[0], strings(&["the", "cat"]));
    assert_eq!(digest.tokens[1].chapters[0], strings(&["the", "dog"]));
}

#[test]
fn digest_splits_chapters_and_keeps_raw_text() {
    let files = vec![Document {
        name: "book".to_string(),
        text: "first words<|eoc|>second words".to_string(),
    }];
    let digest = digest_files(&files, "<|eoc|>");
    assert_eq!(digest.raw[0].chapters, vec!["first words", "second words"]);
    assert_eq!(digest.tokens[0].chapters.len(), 2);
    assert_eq!(digest.tokens[0].chapters[0], strings(&["first", "words"]));
}
