//! Corpus digestion and statistics for plain-text documents: chapter
//! splitting, punctuation and capitalization normalization, word and phrase
//! frequency counting, stopword filtering, TF-IDF bookkeeping, and canonical
//! ranking of the results into report tables.

pub mod casing;
pub mod chapters;
pub mod digest;
pub mod freq;
pub mod normalize;
pub mod rank;
pub mod stopwords;
pub mod strutil;
pub mod tables;
pub mod text;
pub mod tfidf;
