use word_frequency_analysis::chapters::split_into_chapters;
use word_frequency_analysis::text::{split_into_words, tokenize, trim_punctuations};

#[test]
fn trim_replaces_punctuation_with_spaces() {
    assert_eq!(trim_punctuations("Hello, world!"), "Hello world");
}

#[test]
fn trim_collapses_whitespace_and_trims() {
    assert_eq!(trim_punctuations("  a\t\tb   c  "), "a b c");
}

#[test]
fn trim_keeps_hyphen_star_apostrophe() {
    assert_eq!(trim_punctuations("well-known *star* isn't"), "well-known *star* isn't");
}

#[test]
fn trim_rewrites_right_single_quote() {
    assert_eq!(trim_punctuations("don\u{2019}t stop"), "don't stop");
}

#[test]
fn trim_empty_is_empty() {
    assert_eq!(trim_punctuations(""), "");
}

#[test]
fn trim_only_punctuation_is_empty() {
    assert_eq!(trim_punctuations("?!...;;"), "");
}

#[test]
fn split_words_basic() {
    assert_eq!(split_into_words("a b  c"), vec!["a", "b", "c"]);
}

#[test]
fn split_words_empty() {
    let none: Vec<String> = Vec::new();
    assert_eq!(split_into_words(""), none);
    assert_eq!(split_into_words("   "), none);
}

#[test]
fn tokenize_empty_input_yields_empty_list() {
    let none: Vec<String> = Vec::new();
    assert_eq!(tokenize(""), none);
}

#[test]
fn tokenize_keeps_case_and_order() {
    assert_eq!(tokenize("The cat, the Cat."), vec!["The", "cat", "the", "Cat"]);
}

#[test]
fn chapters_without_separator_is_whole_text() {
    assert_eq!(split_into_chapters("plain text", "<|eoc|>"), vec!["plain text"]);
}

#[test]
fn chapters_split_exactly() {
    assert_eq!(
        split_into_chapters("one<|eoc|>two<|eoc|>three", "<|eoc|>"),
        vec!["one", "two", "three"]
    );
}

#[test]
fn chapters_keep_empty_pieces() {
    assert_eq!(split_into_chapters("<|eoc|>a<|eoc|>", "<|eoc|>"), vec!["", "a", ""]);
}

#[test]
fn chapters_empty_separator_is_one_chapter() {
    assert_eq!(split_into_chapters("abc", ""), vec!["abc"]);
}

#[test]
fn chapters_separator_longer_than_text() {
    assert_eq!(split_into_chapters("ab", "abcdef"), vec!["ab"]);
}
