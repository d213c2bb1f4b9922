use word_frequency_analysis::digest::{digest_files, Document};
use word_frequency_analysis::freq::{
    chapter_frequencies, file_frequency, DocChapterFreqs, DocFreq,
};
use word_frequency_analysis::normalize::generate_word_corpus_set;
use word_frequency_analysis::stopwords::{
    filter_stopwords, remove_stopwords_no_chapters, remove_stopwords_with_chapters,
};
use word_frequency_analysis::tables::combined_map_to_csv_string;

fn strings(words: &[&str]) -> Vec<String> {
    words.iter().map(|w| w.to_string()).collect()
}

fn entries(pairs: &[(&str, usize)]) -> Vec<(String, usize)> {
    pairs.iter().map(|p| (p.0.to_string(), p.1)).collect()
}

#[test]
fn filter_drops_only_stopwords() {
    let stop = generate_word_corpus_set(&strings(&["the", "and"]));
    let es = entries(&[("the", 9), ("cat", 2), ("and", 1), ("dog", 3)]);
    let out = filter_stopwords(&es, &stop);
    assert_eq!(out, entries(&[("cat", 2), ("dog", 3)]));
}

#[test]
fn filter_does_not_mutate_input() {
    let stop = generate_word_corpus_set(&strings(&["the"]));
    let es = entries(&[("the", 9), ("cat", 2)]);
    let _ = filter_stopwords(&es, &stop);
    assert_eq!(es, entries(&[("the", 9), ("cat", 2)]));
}

#[test]
fn remove_stopwords_file_level() {
    let stop = generate_word_corpus_set(&strings(&["of"]));
    let data = vec![DocFreq { name: "f".to_string(), counts: entries(&[("of", 4), ("ox", 1)]) }];
    let out = remove_stopwords_no_chapters(&data, &stop);
    assert_eq!(out[0].name, "f");
    assert_eq!(out[0].counts, entries(&[("ox", 1)]));
}

#[test]
fn remove_stopwords_chapter_level() {
    let stop = generate_word_corpus_set(&strings(&["a"]));
    let data = vec![DocChapterFreqs {
        name: "f".to_string(),
        chapters: vec![entries(&[("a", 4), ("b", 1)]), entries(&[("a", 2)])],
    }];
    let out = remove_stopwords_with_chapters(&data, &stop);
    assert_eq!(out[0].chapters[0], entries(&[("b", 1)]));
    assert_eq!(out[0].chapters[1], entries(&[]));
}

fn pipeline_table(files: &Vec<Document>, phrases: &Vec<String>) -> String {
    let digest = digest_files(files, "<|eoc|>");
    // word-keyed aggregation: word -> (file, count), built from each
    // document's file-level frequency map
    let mut data: Vec<(String, Vec<(String, usize)>)> = Vec::new();
    for (d, raw) in digest.tokens.iter().zip(digest.raw.iter()) {
        let mut chapters: Vec<Vec<(String, usize)>> = Vec::new();
        for (toks, text) in d.chapters.iter().zip(raw.chapters.iter()) {
            chapters.push(chapter_frequencies(toks, text, phrases));
        }
        let file_map = file_frequency(&chapters).unwrap();
        for (word, count) in file_map {
            match data.iter_mut().find(|e| e.0 == word) {
                Some(entry) => entry.1.push((d.name.clone(), count)),
                None => data.push((word, vec![(d.name.clone(), count)])),
            }
        }
    }
    combined_map_to_csv_string(&data, phrases)
}

#[test]
fn permuted_documents_give_identical_tables() {
    let a = vec![
        Document { name: "one".to_string(), text: "The cat sat. The dog ran!".to_string() },
        Document { name: "two".to_string(), text: "the cat, the cat<|eoc|>a dog".to_string() },
        Document { name: "three".to_string(), text: "Numbers 3 and 3 again".to_string() },
    ];
    let b = vec![a[2].clone(), a[0].clone(), a[1].clone()];
    let phrases = strings(&["the cat"]);
    assert_eq!(pipeline_table(&a, &phrases), pipeline_table(&b, &phrases));
}

#[test]
fn pipeline_counts_are_conserved() {
    let files = vec![Document {
        name: "only".to_string(),
        text: "one two two three three three".to_string(),
    }];
    let digest = digest_files(&files, "<|eoc|>");
    let toks = &digest.tokens[0].chapters[0];
    let counts = word_frequency_analysis::freq::word_frequency(toks);
    let total: usize = counts.iter().map(|e| e.1).sum();
    assert_eq!(total, toks.len());
    assert_eq!(total, 6);
}
