use word_frequency_analysis::freq::DocChapterFreqs;
use word_frequency_analysis::tfidf::calculate_tf_idf;

fn chapter(pairs: &[(&str, usize)]) -> Vec<(String, usize)> {
    pairs.iter().map(|p| (p.0.to_string(), p.1)).collect()
}

#[test]
fn single_document_single_chapter_skips() {
    let data = vec![DocChapterFreqs {
        name: "only".to_string(),
        chapters: vec![chapter(&[("word", 3)])],
    }];
    let r = calculate_tf_idf(&data);
    assert_eq!(r.n_chapters, 1);
    assert!(r.docs.is_empty());
    assert!(r.warnings.is_empty());
}

#[test]
fn components_follow_definitions() {
    let data = vec![
        DocChapterFreqs {
            name: "one".to_string(),
            chapters: vec![chapter(&[("alpha", 2), ("beta", 2)])],
        },
        DocChapterFreqs {
            name: "two".to_string(),
            chapters: vec![chapter(&[("alpha", 1)])],
        },
    ];
    let r = calculate_tf_idf(&data);
    assert_eq!(r.n_chapters, 2);
    assert_eq!(r.docs.len(), 2);
    let one = &r.docs[0].chapters[0];
    let alpha = one.iter().find(|e| e.0 == "alpha").unwrap();
    assert_eq!(alpha.1.freq, 2);
    assert_eq!(alpha.1.chapter_total, 4);
    assert_eq!(alpha.1.df, 2);
    let beta = one.iter().find(|e| e.0 == "beta").unwrap();
    assert_eq!(beta.1.freq, 2);
    assert_eq!(beta.1.df, 1);
    // tf * idf computed from the components matches the definitions
    let tf = alpha.1.freq as f64 / alpha.1.chapter_total as f64;
    let idf = (r.n_chapters as f64 / alpha.1.df.max(1) as f64).log10();
    assert_eq!(tf, 0.5);
    assert_eq!(idf, 0.0);
    assert!(r.warnings.is_empty());
}

#[test]
fn degenerate_df_is_clamped_and_warned_once() {
    // three chapters; "ghost" is present in every chapter map but never
    // with a positive count, so df("ghost") == 0
    let data = vec![
        DocChapterFreqs {
            name: "one".to_string(),
            chapters: vec![
                chapter(&[("ghost", 0), ("real", 1)]),
                chapter(&[("ghost", 0), ("real", 2)]),
            ],
        },
        DocChapterFreqs {
            name: "two".to_string(),
            chapters: vec![chapter(&[("ghost", 0), ("real", 3)])],
        },
    ];
    let r = calculate_tf_idf(&data);
    assert_eq!(r.n_chapters, 3);
    let ghost = r.docs[0].chapters[0].iter().find(|e| e.0 == "ghost").unwrap();
    assert_eq!(ghost.1.df, 0);
    // the clamped denominator is 1, so idf == log10(3 / 1)
    let idf = (r.n_chapters as f64 / ghost.1.df.max(1) as f64).log10();
    assert_eq!(idf, 3.0_f64.log10());
    // warned exactly once, although three chapters reference it
    assert_eq!(r.warnings, vec!["ghost".to_string()]);
}

#[test]
fn zero_entries_do_not_count_toward_df() {
    let data = vec![
        DocChapterFreqs {
            name: "one".to_string(),
            chapters: vec![chapter(&[("word", 0)])],
        },
        DocChapterFreqs {
            name: "two".to_string(),
            chapters: vec![chapter(&[("word", 7)])],
        },
    ];
    let r = calculate_tf_idf(&data);
    let w = r.docs[0].chapters[0].iter().find(|e| e.0 == "word").unwrap();
    assert_eq!(w.1.df, 1);
    assert!(r.warnings.is_empty());
}
