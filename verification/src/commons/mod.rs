//! Common token filters and tokenizers:
//! * [EdgeNgramTokenFilter]: produces the prefixes ("edge n-grams") of tokens.
//! * [ElisionTokenFilter]: removes elisions such as `l'` in `l'avion`.
//! * [LengthTokenFilter]: keeps tokens that match length criteria.
//! * [LimitTokenCountFilter]: limits the number of tokens.
//! * [PathTokenizer]: tokenizes a path hierarchy.
//! * [ReverseTokenFilter]: reverses the text of tokens.
//! * [StopTokenFilter]: removes stop words.
//! * [TrimTokenFilter]: trims leading and trailing whitespace.
pub mod edge_ngram;
pub mod length;
pub mod limit;
pub mod reverse;
pub mod trim;
pub mod path;
pub mod elision;
pub mod stop;

pub use edge_ngram::{EdgeNgramError, EdgeNgramTokenFilter};
pub use elision::ElisionTokenFilter;
pub use length::LengthTokenFilter;
pub use limit::LimitTokenCountFilter;
pub use path::{PathTokenizer, PathTokenizerBuilder};
pub use reverse::ReverseTokenFilter;
pub use stop::StopTokenFilter;
pub use trim::TrimTokenFilter;
