//! The ICU based components. The ICU calls themselves are made by the
//! embedding code: the normalizer and transform streams call the function
//! they are given (ICU's normalizer or transliterator) on each token, and
//! the word tokenizer takes the boundaries that ICU's break iterator found.
pub mod normalizer;
pub mod tokenizer;
pub mod transform;

pub use normalizer::{ICUNormalizer2TokenFilter, Mode};
pub use tokenizer::ICUTokenizer;
pub use transform::{Direction, ICUTransformTokenFilter};

use vstd::prelude::*;

use crate::token::{Token, TokenView};

verus! {

/// The token after a conversion: it takes the converted text when the
/// conversion succeeded, and keeps its own text otherwise; its other fields
/// are unchanged.
pub open spec fn converted_token(t: TokenView, result: Option<Seq<char>>) -> TokenView {
    match result {
        Some(text) => t.with_text(text),
        None => t,
    }
}

/// A conversion changes only the text of a token: offsets, position and
/// position length stay, the text becomes the converted one, and a token
/// whose conversion failed is left as it was.
pub proof fn conversion_changes_only_text(t: TokenView, result: Option<Seq<char>>)
    ensures
        converted_token(t, result).offset_from == t.offset_from,
        converted_token(t, result).offset_to == t.offset_to,
        converted_token(t, result).position == t.position,
        converted_token(t, result).position_length == t.position_length,
        result matches Some(text) ==> converted_token(t, result).text == text,
        result is None ==> converted_token(t, result) == t,
{
}

/// The view of a conversion result.
pub open spec fn result_view(result: Option<String>) -> Option<Seq<char>> {
    match result {
        Some(s) => Some(s@),
        None => None,
    }
}

/// Applies the outcome of a conversion to a token.
pub fn apply_conversion(token: &Token, result: Option<String>) -> (t: Token)
    ensures
        t@ == converted_token(token@, result_view(result)),
{
    match result {
        Some(text) => token.with_text(text),
        None => token.duplicate(),
    }
}

} // verus!
