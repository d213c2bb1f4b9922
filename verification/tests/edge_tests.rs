use word_frequency_analysis::chapters::count_phrase;
use word_frequency_analysis::freq::{phrase_frequency, word_frequency, DocChapterFreqs};
use word_frequency_analysis::rank::sort_entries;
use word_frequency_analysis::tables::{combined_map_to_csv_string, format_count};
use word_frequency_analysis::text::tokenize;
use word_frequency_analysis::tfidf::calculate_tf_idf;

fn strings(words: &[&str]) -> Vec<String> {
    words.iter().map(|w| w.to_string()).collect()
}

#[test]
fn empty_phrase_matches_every_boundary() {
    assert_eq!(count_phrase("aaaa", ""), 5);
    assert_eq!(count_phrase("", ""), 1);
}

#[test]
fn count_phrase_simple_cases() {
    assert_eq!(count_phrase("abcabc", "abc"), 2);
    assert_eq!(count_phrase("abcabc", "cb"), 0);
    assert_eq!(count_phrase("aaa", "aa"), 1);
}

#[test]
fn phrase_frequency_keeps_duplicates_in_order() {
    let es = phrase_frequency("xyx", &strings(&["x", "x"]));
    assert_eq!(es, vec![("x".to_string(), 2), ("x".to_string(), 2)]);
}

#[test]
fn contraction_tokenizes_as_one_word() {
    assert_eq!(tokenize("It\u{2019}s fine"), strings(&["It's", "fine"]));
}

#[test]
fn word_frequency_empty() {
    assert!(word_frequency(&Vec::new()).is_empty());
}

#[test]
fn sort_entries_empty() {
    let out = sort_entries(Vec::new(), &Vec::new());
    assert!(out.is_empty());
}

#[test]
fn format_count_largest() {
    assert_eq!(format_count(usize::MAX), usize::MAX.to_string());
}

#[test]
fn combined_map_empty_data() {
    let data: Vec<(String, Vec<(String, usize)>)> = Vec::new();
    assert_eq!(combined_map_to_csv_string(&data, &Vec::new()), "Words,Total\n");
}

#[test]
fn tf_idf_empty_corpus() {
    let data: Vec<DocChapterFreqs> = Vec::new();
    let r = calculate_tf_idf(&data);
    assert_eq!(r.n_chapters, 0);
    assert!(r.docs.is_empty());
    assert!(r.warnings.is_empty());
}

#[test]
fn two_single_chapter_documents_are_not_trivial() {
    let data = vec![
        DocChapterFreqs {
            name: "a".to_string(),
            chapters: vec![vec![("x".to_string(), 1usize)]],
        },
        DocChapterFreqs {
            name: "b".to_string(),
            chapters: vec![vec![("x".to_string(), 1usize)]],
        },
    ];
    let r = calculate_tf_idf(&data);
    assert_eq!(r.n_chapters, 2);
    assert_eq!(r.docs.len(), 2);
}
