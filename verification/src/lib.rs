//! Token filters and tokenizers for full-text analysis: edge n-grams, elision,
//! length and count limits, path hierarchies, reversal, trimming, stop words,
//! and the ICU based normalizer, transform and word tokenizer.
pub mod text;
pub mod token;
pub mod commons;
pub mod icu;
